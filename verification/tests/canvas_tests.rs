use rusty_painter::canvas::Canvas;
use rusty_painter::pixel::{blend_erase, Pixel};

fn px(r: u8, g: u8, b: u8, a: u8) -> Pixel {
    Pixel::from_rgba_premultiplied(r, g, b, a)
}

fn clear() -> Pixel {
    px(10, 20, 30, 255)
}

fn small_canvas() -> Canvas {
    // 10 x 6 pixels in 4-pixel tiles: 3 x 2 tiles of 16 pixels, with a
    // paint layer above the background.
    let mut c = Canvas::new(10, 6, clear(), 4);
    c.add_layer();
    c
}

#[test]
fn new_canvas_has_single_background_layer() {
    let c = Canvas::new(10, 6, clear(), 4);
    assert_eq!(c.width(), 10);
    assert_eq!(c.height(), 6);
    assert_eq!(c.tile_size(), 4);
    assert_eq!(c.clear_color(), clear());
    assert_eq!(c.layer_count(), 1);
    assert_eq!(c.active_layer(), 0);
    assert_eq!(c.layer(0).name, "Background");
    assert!(c.layer(0).locked);
    assert!(c.layer(0).visible);
    assert_eq!(c.get_layer_tile_data(0, 0, 0), None);
    assert_eq!(c.layer_tile_is_empty(0, 0, 0), None);
    let s = small_canvas();
    assert_eq!(s.layer(1).name, "Layer 2");
    assert!(!s.layer(1).locked);
    assert_eq!(s.active_layer(), 1);
}

#[test]
fn add_layer_names_by_count_and_activates() {
    let mut c = small_canvas();
    c.add_layer();
    assert_eq!(c.layer_count(), 3);
    assert_eq!(c.active_layer(), 2);
    assert_eq!(c.layer(2).name, "Layer 3");
    c.add_layer();
    assert_eq!(c.layer(3).name, "Layer 4");
    assert_eq!(c.active_layer(), 3);
}

#[test]
fn ensured_tiles_take_the_layer_fill() {
    let mut c = small_canvas();
    c.ensure_layer_tile_exists(0, 1, 1);
    assert_eq!(c.get_layer_tile_data(0, 1, 1), Some(vec![clear(); 16]));
    assert_eq!(c.layer_tile_is_empty(0, 1, 1), Some(false));
    c.ensure_tile_exists(2, 0);
    assert_eq!(c.get_layer_tile_data(1, 2, 0), Some(vec![Pixel::transparent(); 16]));
    assert_eq!(c.layer_tile_is_empty(1, 2, 0), Some(true));
    assert!(c.layer_tile_has_data(1, 2, 0));
    assert!(!c.layer_tile_has_data(1, 0, 0));
    c.ensure_layer_tile_exists_i32(1, -1, -1);
    assert_eq!(c.get_layer_tile_data(1, -1, -1), Some(vec![Pixel::transparent(); 16]));
}

#[test]
fn set_then_get_tile_data() {
    let mut c = small_canvas();
    let mut data = vec![Pixel::transparent(); 16];
    data[3] = px(1, 2, 3, 4);
    c.set_layer_tile_data(1, 0, 1, data.clone());
    assert_eq!(c.get_layer_tile_data(1, 0, 1), Some(data));
    assert_eq!(c.layer_tile_is_empty(1, 0, 1), Some(false));
    c.set_layer_tile_data(1, 0, 1, vec![Pixel::transparent(); 16]);
    assert_eq!(c.layer_tile_is_empty(1, 0, 1), Some(true));
    // No such layer: nothing happens.
    c.set_layer_tile_data(7, 0, 1, vec![clear(); 16]);
    assert_eq!(c.get_layer_tile_data(7, 0, 1), None);
}

#[test]
fn mark_tile_dirty_clears_empty_flag() {
    let mut c = small_canvas();
    c.ensure_tile_exists(1, 0);
    assert_eq!(c.layer_tile_is_empty(1, 1, 0), Some(true));
    c.mark_tile_dirty(1, 0);
    assert_eq!(c.layer_tile_is_empty(1, 1, 0), Some(false));
}

#[test]
fn clear_drops_active_layer_buffers() {
    let mut c = small_canvas();
    c.set_layer_tile_data(1, 0, 0, vec![px(5, 5, 5, 5); 16]);
    c.ensure_layer_tile_exists(0, 0, 0);
    let white = px(255, 255, 255, 255);
    c.clear(white);
    // Clearing a layer above the background keeps the background colour.
    assert_eq!(c.clear_color(), clear());
    assert_eq!(c.get_layer_tile_data(1, 0, 0), None);
    assert_eq!(c.layer_tile_is_empty(1, 0, 0), Some(true));
    // Other layers keep their buffers.
    assert_eq!(c.get_layer_tile_data(0, 0, 0), Some(vec![clear(); 16]));
    // Clearing the background sets its colour.
    let mut b = Canvas::new(10, 6, clear(), 4);
    b.ensure_layer_tile_exists(0, 0, 0);
    b.clear(white);
    assert_eq!(b.clear_color(), white);
    assert_eq!(b.get_layer_tile_data(0, 0, 0), None);
}

#[test]
fn capture_lists_every_buffer_once() {
    let mut c = small_canvas();
    c.set_layer_tile_data(1, 0, 0, vec![px(1, 1, 1, 1); 16]);
    c.set_layer_tile_data(1, 2, 1, vec![px(2, 2, 2, 2); 16]);
    c.ensure_tile_exists(1, 1);
    let mut got = c.capture_layer_pixels(1);
    got.sort_by_key(|e| e.0);
    assert_eq!(got.len(), 3);
    assert_eq!(got[0], ((0, 0), vec![px(1, 1, 1, 1); 16]));
    assert_eq!(got[1], ((1, 1), vec![Pixel::transparent(); 16]));
    assert_eq!(got[2], ((2, 1), vec![px(2, 2, 2, 2); 16]));
    assert!(c.capture_layer_pixels(9).is_empty());
}

#[test]
fn swap_region_exchanges_pixels() {
    let mut c = small_canvas();
    let mut data = vec![Pixel::transparent(); 16];
    for i in 0..16 {
        data[i] = px(i as u8, 0, 0, 255);
    }
    c.set_layer_tile_data(1, 0, 0, data);
    // 2 x 2 rectangle at (1, 1): tile indices 5, 6, 9, 10.
    let mut region = vec![px(0, 9, 0, 255); 4];
    assert!(c.swap_tile_region(1, 0, 0, 1, 1, 2, 2, &mut region));
    assert_eq!(region, vec![px(5, 0, 0, 255), px(6, 0, 0, 255), px(9, 0, 0, 255), px(10, 0, 0, 255)]);
    let after = c.get_layer_tile_data(1, 0, 0).unwrap();
    assert_eq!(after[5], px(0, 9, 0, 255));
    assert_eq!(after[10], px(0, 9, 0, 255));
    assert_eq!(after[4], px(4, 0, 0, 255));
    // Swapping back restores the tile.
    assert!(c.swap_tile_region(1, 0, 0, 1, 1, 2, 2, &mut region));
    assert_eq!(c.get_layer_tile_data(1, 0, 0).unwrap()[5], px(5, 0, 0, 255));
    assert!(!c.swap_tile_region(4, 0, 0, 1, 1, 2, 2, &mut region));
}

#[test]
fn merge_layer_down_blends_and_removes() {
    let mut c = small_canvas();
    c.add_layer();
    let lower = px(1, 1, 1, 255);
    let upper = px(200, 0, 0, 255);
    c.set_layer_tile_data(1, 0, 0, vec![lower; 16]);
    let mut top = vec![Pixel::transparent(); 16];
    top[0] = upper;
    c.set_layer_tile_data(2, 0, 0, top);
    c.set_layer_tile_data(2, 1, 0, vec![upper; 16]);
    let over = |s: Pixel, d: Pixel| if s.a > 0 { s } else { d };
    c.merge_layer_down(2, over);
    assert_eq!(c.layer_count(), 2);
    assert_eq!(c.active_layer(), 1);
    let merged = c.get_layer_tile_data(1, 0, 0).unwrap();
    assert_eq!(merged[0], upper);
    assert_eq!(merged[1], lower);
    // Where the lower layer had no buffer it counts as transparent.
    assert_eq!(c.get_layer_tile_data(1, 1, 0), Some(vec![upper; 16]));
    // The bottom layer cannot be merged down.
    c.merge_layer_down(0, over);
    assert_eq!(c.layer_count(), 2);
}

#[test]
fn merge_uses_erase_rule() {
    let mut c = small_canvas();
    c.add_layer();
    c.set_layer_tile_data(1, 0, 0, vec![px(200, 100, 50, 255); 16]);
    c.set_layer_tile_data(2, 0, 0, vec![px(0, 0, 0, 128); 16]);
    c.merge_layer_down(2, blend_erase);
    assert_eq!(c.get_layer_tile_data(1, 0, 0), Some(vec![px(100, 50, 25, 127); 16]));
}

#[test]
fn float_selection_lifts_selected_pixels() {
    let mut c = small_canvas();
    let p = px(7, 7, 7, 255);
    c.set_layer_tile_data(1, 0, 0, vec![p; 16]);
    c.set_layer_tile_data(1, 2, 1, vec![p; 16]);
    let inside = |x: i32, y: i32| x < 2 && y < 2;
    assert_eq!(c.float_selection(false, inside), None);
    assert_eq!(c.layer_count(), 2);
    let idx = c.float_selection(true, inside);
    assert_eq!(idx, Some(2));
    assert_eq!(c.active_layer(), 2);
    assert_eq!(c.layer(2).name, "Floating Selection");
    let left = c.get_layer_tile_data(1, 0, 0).unwrap();
    let lifted = c.get_layer_tile_data(2, 0, 0).unwrap();
    for j in 0..16 {
        let (x, y) = (j % 4, j / 4);
        if x < 2 && y < 2 {
            assert_eq!(left[j], Pixel::transparent());
            assert_eq!(lifted[j], p);
        } else {
            assert_eq!(left[j], p);
            assert_eq!(lifted[j], Pixel::transparent());
        }
    }
    // A tile with nothing selected gets no counterpart.
    assert_eq!(c.get_layer_tile_data(2, 2, 1), None);
    assert_eq!(c.get_layer_tile_data(1, 2, 1), Some(vec![p; 16]));
}

#[test]
fn reorder_and_remove_layers() {
    let mut c = small_canvas();
    c.add_layer();
    // Layers: Background, Layer 2, Layer 3 (active).
    assert_eq!(c.reorder_layers(0, 9), Some(2));
    assert_eq!(c.layer(0).name, "Layer 2");
    assert_eq!(c.layer(1).name, "Layer 3");
    assert_eq!(c.layer(2).name, "Background");
    assert_eq!(c.active_layer(), 1);
    assert_eq!(c.reorder_layers(1, 1), None);
    assert_eq!(c.reorder_layers(5, 0), None);
    assert!(!c.remove_layer(3));
    assert!(c.remove_layer(2));
    assert_eq!(c.layer_count(), 2);
    assert_eq!(c.active_layer(), 1);
    assert!(c.remove_layer(1));
    assert_eq!(c.active_layer(), 0);
}

#[test]
fn content_bounds_cover_opaque_pixels() {
    let mut c = small_canvas();
    let none: Option<&fn(i32, i32) -> bool> = None;
    assert_eq!(c.get_content_bounds(1, none), None);
    let mut data = vec![Pixel::transparent(); 16];
    data[5] = px(1, 0, 0, 1); // (1, 1) in tile (1, 0): canvas (5, 1)
    data[14] = px(0, 0, 0, 9); // (2, 3) in tile (1, 0): canvas (6, 3)
    c.set_layer_tile_data(1, 1, 0, data);
    assert_eq!(c.get_content_bounds(1, none), Some((5, 1, 6, 3)));
    let right = |x: i32, _y: i32| x >= 6;
    assert_eq!(c.get_content_bounds(1, Some(&right)), Some((6, 3, 6, 3)));
    let nothing = |_x: i32, _y: i32| false;
    assert_eq!(c.get_content_bounds(1, Some(&nothing)), None);
    assert_eq!(c.get_content_bounds(8, none), None);
    // Negative tile coordinates are in canvas space too.
    let mut far = vec![Pixel::transparent(); 16];
    far[0] = px(0, 0, 0, 255);
    c.set_layer_tile_data(1, -1, -2, far);
    assert_eq!(c.get_content_bounds(1, none), Some((-4, -8, 6, 3)));
}

#[test]
fn blend_erase_scales_by_inverse_alpha() {
    let out = blend_erase(px(0, 0, 0, 128), px(200, 100, 50, 255));
    assert_eq!(out, px(100, 50, 25, 127));
    assert_eq!(blend_erase(px(9, 9, 9, 0), px(200, 100, 50, 255)), px(200, 100, 50, 255));
    assert_eq!(blend_erase(px(0, 0, 0, 255), px(200, 100, 50, 255)), Pixel::transparent());
}

#[test]
fn layer_properties_and_active_layer() {
    let mut c = small_canvas();
    assert!(c.set_layer_info(1, "Ink".to_string(), false, 0x3f00_0000, true));
    assert_eq!(c.layer(1).name, "Ink");
    assert!(!c.layer(1).visible);
    assert_eq!(c.layer(1).opacity_bits, 0x3f00_0000);
    assert!(c.layer(1).locked);
    assert!(!c.set_layer_info(5, "None".to_string(), true, 0, false));
    assert!(c.set_active_layer(0));
    assert_eq!(c.active_layer(), 0);
    assert!(!c.set_active_layer(2));
    assert_eq!(c.active_layer(), 0);
}

#[test]
fn per_layer_list_entries() {
    let mut v = vec![10, 20, 30];
    assert!(rusty_painter::canvas::remove_entry(&mut v, 1));
    assert_eq!(v, vec![10, 30]);
    assert!(!rusty_painter::canvas::remove_entry(&mut v, 2));
    assert_eq!(v, vec![10, 30]);
}
