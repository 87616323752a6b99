use rusty_painter::canvas::Canvas;
use rusty_painter::history::{History, TileSnapshot, UndoAction};
use rusty_painter::pixel::Pixel;
use rusty_painter::stroke::{clip_to_canvas, snapshot_tiles, span_regions, TileRegion};
use rusty_painter::timeline::Timeline;

fn px(r: u8, g: u8, b: u8, a: u8) -> Pixel {
    Pixel::from_rgba_premultiplied(r, g, b, a)
}

fn empty_action() -> UndoAction<u32, u8> {
    UndoAction { tiles: Vec::new(), selection: None, transform: None }
}

#[test]
fn undo_then_redo_restores_stroke() {
    let mut canvas = Canvas::new(8, 8, px(0, 0, 0, 255), 4);
    canvas.add_layer();
    let before = px(1, 2, 3, 255);
    let after = px(9, 9, 9, 255);
    canvas.set_layer_tile_data(1, 0, 0, vec![before; 16]);

    let mut action = empty_action();
    let mut modified: Vec<(usize, usize)> = Vec::new();
    let regions = vec![TileRegion { tx: 0, ty: 0, x0: 0, y0: 0, width: 2, height: 2 }];
    snapshot_tiles(&mut canvas, &regions, &mut action, &mut modified);
    assert_eq!(modified, vec![(0, 0)]);
    assert_eq!(action.tiles.len(), 1);
    assert_eq!(action.tiles[0].data, vec![before; 16]);
    // A second dab on the same tile adds no snapshot.
    snapshot_tiles(&mut canvas, &regions, &mut action, &mut modified);
    assert_eq!(action.tiles.len(), 1);

    canvas.set_layer_tile_data(1, 0, 0, vec![after; 16]);
    let mut history: History<u32, u8> = History::new();
    history.push_action(action);

    let mut selection: u32 = 0;
    let mut transform: Option<u8> = None;
    let touched = history.undo(&mut canvas, &mut selection, &mut transform);
    assert_eq!(touched, vec![(0, 0)]);
    assert_eq!(canvas.get_layer_tile_data(1, 0, 0), Some(vec![before; 16]));

    let touched = history.redo(&mut canvas, &mut selection, &mut transform);
    assert_eq!(touched, vec![(0, 0)]);
    assert_eq!(canvas.get_layer_tile_data(1, 0, 0), Some(vec![after; 16]));

    // Nothing left to redo.
    assert!(history.redo(&mut canvas, &mut selection, &mut transform).is_empty());
    assert_eq!(canvas.get_layer_tile_data(1, 0, 0), Some(vec![after; 16]));
}

#[test]
fn undo_swaps_selection_and_transform() {
    let mut canvas = Canvas::new(8, 8, px(0, 0, 0, 255), 4);
    canvas.add_layer();
    let mut history: History<u32, u8> = History::new();
    let mut action = empty_action();
    action.selection = Some(5);
    action.transform = Some(3);
    history.push_action(action);
    let mut selection: u32 = 11;
    let mut transform: Option<u8> = Some(1);
    let touched = history.undo(&mut canvas, &mut selection, &mut transform);
    assert!(touched.is_empty());
    assert_eq!(selection, 5);
    assert_eq!(transform, Some(3));
    history.redo(&mut canvas, &mut selection, &mut transform);
    assert_eq!(selection, 11);
    assert_eq!(transform, Some(1));
}

#[test]
fn region_snapshot_round_trip() {
    let mut canvas = Canvas::new(8, 8, px(0, 0, 0, 255), 4);
    canvas.add_layer();
    let mut data = vec![Pixel::transparent(); 16];
    data[5] = px(4, 4, 4, 4);
    canvas.set_layer_tile_data(1, 1, 1, data.clone());
    // A partial snapshot: the 2 x 2 rectangle at (1, 1) of tile (1, 1).
    let snap = TileSnapshot {
        tx: 1,
        ty: 1,
        layer_idx: 1,
        x0: 1,
        y0: 1,
        width: 2,
        height: 2,
        data: vec![px(8, 8, 8, 8); 4],
    };
    let mut action = empty_action();
    action.tiles.push(snap);
    let mut history: History<u32, u8> = History::new();
    history.push_action(action);
    let mut selection: u32 = 0;
    let mut transform: Option<u8> = None;
    assert_eq!(history.undo(&mut canvas, &mut selection, &mut transform), vec![(1, 1)]);
    let undone = canvas.get_layer_tile_data(1, 1, 1).unwrap();
    for j in [5usize, 6, 9, 10] {
        assert_eq!(undone[j], px(8, 8, 8, 8));
    }
    assert_eq!(undone[0], Pixel::transparent());
    history.redo(&mut canvas, &mut selection, &mut transform);
    assert_eq!(canvas.get_layer_tile_data(1, 1, 1), Some(data));
}

#[test]
fn pushing_clears_redo() {
    let mut canvas = Canvas::new(8, 8, px(0, 0, 0, 255), 4);
    canvas.add_layer();
    let mut history: History<u32, u8> = History::new();
    let mut first = empty_action();
    first.selection = Some(1);
    history.push_action(first);
    let mut selection: u32 = 0;
    let mut transform: Option<u8> = None;
    history.undo(&mut canvas, &mut selection, &mut transform);
    assert_eq!(selection, 1);
    history.push_action(empty_action());
    history.redo(&mut canvas, &mut selection, &mut transform);
    assert_eq!(selection, 1);
}

#[test]
fn stroke_regions_for_a_dab() {
    let span = clip_to_canvas(-3, 5, 2, 2, 10, 6, 4).unwrap();
    assert_eq!((span.start_x, span.end_x, span.start_y, span.end_y), (0, 5, 2, 2));
    assert_eq!((span.min_tx, span.max_tx, span.min_ty, span.max_ty), (0, 1, 0, 0));
    let regions = span_regions(span, 4);
    assert_eq!(
        regions,
        vec![
            TileRegion { tx: 0, ty: 0, x0: 0, y0: 2, width: 4, height: 1 },
            TileRegion { tx: 1, ty: 0, x0: 0, y0: 2, width: 2, height: 1 },
        ]
    );
    assert!(clip_to_canvas(11, 12, 0, 0, 10, 6, 4).is_none());
    assert!(clip_to_canvas(-5, -1, 0, 3, 10, 6, 4).is_none());
}

#[test]
fn timeline_moves_cursor() {
    let mut t = Timeline::new(1u32);
    t.push(2);
    t.push(3);
    assert_eq!(t.len(), 3);
    assert_eq!(t.undo(), Some(&2));
    assert_eq!(t.undo(), Some(&1));
    assert_eq!(t.undo(), None);
    assert_eq!(t.position(), 0);
    assert_eq!(t.redo(), Some(&2));
    t.push(9);
    assert_eq!(t.len(), 3);
    assert_eq!(t.position(), 2);
    assert_eq!(t.redo(), None);
    assert_eq!(t.undo(), Some(&2));
    assert_eq!(t.redo(), Some(&9));
}

#[test]
fn shared_tile_regions_round_trip() {
    let mut canvas = Canvas::new(8, 8, px(0, 0, 0, 255), 4);
    canvas.add_layer();
    let mut data = vec![Pixel::transparent(); 16];
    for (i, p) in data.iter_mut().enumerate() {
        *p = px(i as u8, 0, 0, 255);
    }
    canvas.set_layer_tile_data(1, 0, 0, data.clone());
    // Two snapshots of one tile: row 0 columns 0..2, and a 3-pixel row that
    // starts at column 2 of row 1 and runs on into row 2.
    let a = px(200, 0, 0, 255);
    let b = px(0, 200, 0, 255);
    let mut action = empty_action();
    action.tiles.push(TileSnapshot { tx: 0, ty: 0, layer_idx: 1, x0: 0, y0: 0, width: 2, height: 1, data: vec![a; 2] });
    action.tiles.push(TileSnapshot { tx: 0, ty: 0, layer_idx: 1, x0: 2, y0: 1, width: 3, height: 1, data: vec![b; 3] });
    let mut history: History<u32, u8> = History::new();
    history.push_action(action);
    assert!(history.next_fits(&canvas, false));
    assert!(history.next_fits(&canvas, true));
    let mut selection: u32 = 0;
    let mut transform: Option<u8> = None;
    assert_eq!(history.undo(&mut canvas, &mut selection, &mut transform), vec![(0, 0), (0, 0)]);
    let mut expected = data.clone();
    expected[0] = a;
    expected[1] = a;
    expected[6] = b;
    expected[7] = b;
    expected[8] = b;
    assert_eq!(canvas.get_layer_tile_data(1, 0, 0), Some(expected));
    assert_eq!(canvas.layer_tile_is_empty(1, 0, 0), Some(false));
    history.redo(&mut canvas, &mut selection, &mut transform);
    assert_eq!(canvas.get_layer_tile_data(1, 0, 0), Some(data.clone()));
    history.undo(&mut canvas, &mut selection, &mut transform);
    history.redo(&mut canvas, &mut selection, &mut transform);
    assert_eq!(canvas.get_layer_tile_data(1, 0, 0), Some(data));
}

#[test]
fn undo_updates_empty_flag() {
    let mut canvas = Canvas::new(8, 8, px(0, 0, 0, 255), 4);
    canvas.add_layer();
    canvas.ensure_layer_tile_exists(1, 1, 0);
    assert_eq!(canvas.layer_tile_is_empty(1, 1, 0), Some(true));
    let mut action = empty_action();
    action.tiles.push(TileSnapshot { tx: 1, ty: 0, layer_idx: 1, x0: 1, y0: 1, width: 1, height: 1, data: vec![px(5, 5, 5, 255)] });
    let mut history: History<u32, u8> = History::new();
    history.push_action(action);
    let mut selection: u32 = 0;
    let mut transform: Option<u8> = None;
    history.undo(&mut canvas, &mut selection, &mut transform);
    // The tile now holds a visible pixel, so it is no longer marked empty.
    assert_eq!(canvas.layer_tile_is_empty(1, 1, 0), Some(false));
    history.redo(&mut canvas, &mut selection, &mut transform);
    assert_eq!(canvas.layer_tile_is_empty(1, 1, 0), Some(true));
}

#[test]
fn oversized_action_does_not_fit() {
    let canvas = Canvas::new(8, 8, px(0, 0, 0, 255), 4);
    let mut action = empty_action();
    action.tiles.push(TileSnapshot { tx: 0, ty: 0, layer_idx: 0, x0: 3, y0: 3, width: 2, height: 1, data: vec![px(1, 1, 1, 1); 2] });
    let mut history: History<u32, u8> = History::new();
    assert!(history.next_fits(&canvas, false));
    history.push_action(action);
    assert!(!history.next_fits(&canvas, false));
    assert!(history.next_fits(&canvas, true));
}

#[test]
fn transform_snapshots_each_tile_once() {
    let mut canvas = Canvas::new(8, 8, px(0, 0, 0, 255), 4);
    canvas.add_layer();
    let ink = px(7, 7, 7, 255);
    canvas.set_layer_tile_data(1, 0, 0, vec![ink; 16]);
    let mut action = empty_action();
    rusty_painter::stroke::snapshot_layer_tiles(&canvas, 1, &vec![(0, 0), (1, 0), (0, 0), (-1, 3)], &mut action);
    let keys: Vec<(i32, i32)> = action.tiles.iter().map(|t| (t.tx, t.ty)).collect();
    assert_eq!(keys, vec![(0, 0), (1, 0), (-1, 3)]);
    assert_eq!(action.tiles[0].data, vec![ink; 16]);
    assert_eq!(action.tiles[1].data, vec![Pixel::transparent(); 16]);
    assert!(action.tiles.iter().all(|t| t.layer_idx == 1 && t.x0 == 0 && t.y0 == 0 && t.width == 4 && t.height == 4));
}
