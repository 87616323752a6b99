use rusty_painter::canvas::Canvas;
use rusty_painter::input::{
    brush_move, on_button, on_key, on_move, Button, Command, Key, MoveEffect, PointerState, StrokeStep, ToolSignal,
};
use rusty_painter::pixel::Pixel;

fn idle() -> PointerState {
    PointerState { primary_down: false, panning: false, rotating: false, zooming: false }
}

#[test]
fn primary_press_reaches_tool_on_canvas() {
    let (s, sig) = on_button(idle(), Button::Primary, true, false, true, true);
    assert_eq!(sig, ToolSignal::Press);
    assert!(s.primary_down && !s.panning);
    let (_, sig) = on_button(idle(), Button::Primary, true, false, true, false);
    assert_eq!(sig, ToolSignal::Nothing);
    let (_, sig) = on_button(idle(), Button::Primary, true, false, false, true);
    assert_eq!(sig, ToolSignal::Nothing);
}

#[test]
fn space_turns_press_into_pan() {
    let (s, sig) = on_button(idle(), Button::Primary, true, true, true, true);
    assert_eq!(sig, ToolSignal::Nothing);
    assert!(s.panning && s.primary_down);
    assert_eq!(on_move(s), MoveEffect::Pan);
    let (s, sig) = on_button(s, Button::Primary, false, false, true, true);
    assert_eq!(sig, ToolSignal::Release);
    assert!(!s.panning && !s.primary_down);
    assert_eq!(on_move(s), MoveEffect::Tool);
}

#[test]
fn right_drag_rotates_and_middle_drag_zooms() {
    let (s, sig) = on_button(idle(), Button::Secondary, true, false, true, true);
    assert!(s.rotating && !s.panning);
    assert_eq!(sig, ToolSignal::Nothing);
    assert_eq!(on_move(s), MoveEffect::Rotate);
    let (s, _) = on_button(s, Button::Secondary, false, false, true, true);
    assert!(!s.rotating);
    let (s, sig) = on_button(s, Button::Middle, true, false, true, true);
    assert!(s.zooming);
    assert_eq!(sig, ToolSignal::Nothing);
    assert_eq!(on_move(s), MoveEffect::Zoom);
    let (s, _) = on_button(s, Button::Middle, true, false, false, true);
    assert!(s.zooming);
    let (s, _) = on_button(s, Button::Other, false, false, true, true);
    assert!(s.zooming);
    let (s, _) = on_button(s, Button::Middle, false, false, true, true);
    assert!(!s.zooming);
    // Not over the view: no drag starts.
    let (s, _) = on_button(idle(), Button::Secondary, true, false, false, true);
    assert!(!s.rotating);
}

#[test]
fn keyboard_shortcuts() {
    assert_eq!(on_key(Key::Enter, false, false), Command::CommitTransform);
    assert_eq!(on_key(Key::Escape, false, false), Command::CancelSelection);
    assert_eq!(on_key(Key::C, false, false), Command::ClearCanvas);
    assert_eq!(on_key(Key::Z, true, false), Command::Undo);
    assert_eq!(on_key(Key::Z, true, true), Command::Redo);
    assert_eq!(on_key(Key::Z, false, false), Command::Nothing);
    assert_eq!(on_key(Key::Other, true, true), Command::Nothing);
}

#[test]
fn brush_moves() {
    let held = PointerState { primary_down: true, panning: false, rotating: false, zooming: false };
    assert_eq!(brush_move(true, idle(), false, false), StrokeStep::Continue);
    assert_eq!(brush_move(false, held, true, true), StrokeStep::Start);
    assert_eq!(brush_move(false, held, true, false), StrokeStep::Nothing);
    assert_eq!(brush_move(false, idle(), true, true), StrokeStep::Nothing);
}

#[test]
fn pixel_index_in_tiles() {
    let c = Canvas::new(10, 6, Pixel::transparent(), 4);
    assert_eq!(c.index(5, 3), Some((1, 0, 13)));
    assert_eq!(c.index(9, 5), Some((2, 1, 5)));
    assert_eq!(c.index(0, 0), Some((0, 0, 0)));
    assert_eq!(c.index(-1, 0), None);
    assert_eq!(c.index(10, 0), None);
    assert_eq!(c.index(0, 6), None);
}
