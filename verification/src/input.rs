use vstd::prelude::*;

verus! {

/// Mouse buttons the canvas reacts to.
#[derive(Clone, Copy, Debug, PartialEq, Eq, Structural)]
pub enum Button {
    Primary,
    Secondary,
    Middle,
    Other,
}

/// Pointer state of the canvas view: whether the primary button is held,
/// and whether a drag pans, rotates or zooms the view.
#[derive(Clone, Copy, Debug, PartialEq, Eq, Structural)]
pub struct PointerState {
    pub primary_down: bool,
    pub panning: bool,
    pub rotating: bool,
    pub zooming: bool,
}

/// What the active tool is told after a button event.
#[derive(Clone, Copy, Debug, PartialEq, Eq, Structural)]
pub enum ToolSignal {
    Nothing,
    Press,
    Release,
}

/// What a pointer move does to the view.
#[derive(Clone, Copy, Debug, PartialEq, Eq, Structural)]
pub enum MoveEffect {
    Rotate,
    Zoom,
    Pan,
    Tool,
}

/// What a pointer move does to the brush stroke.
#[derive(Clone, Copy, Debug, PartialEq, Eq, Structural)]
pub enum StrokeStep {
    Nothing,
    Start,
    Continue,
}

/// Keys with a shortcut.
#[derive(Clone, Copy, Debug, PartialEq, Eq, Structural)]
pub enum Key {
    Enter,
    Escape,
    C,
    Z,
    Other,
}

/// What a key press asks for.
#[derive(Clone, Copy, Debug, PartialEq, Eq, Structural)]
pub enum Command {
    Nothing,
    CommitTransform,
    CancelSelection,
    ClearCanvas,
    Undo,
    Redo,
}

/// Pressing or releasing a button. The primary button paints: with the
/// space key held a press pans instead, and releasing it ends panning; a
/// press that does not pan reaches the tool when over the view and on the
/// canvas, and a release always does. A right-button (secondary) drag
/// rotates the view and a middle-button drag zooms it, both only starting
/// over the view.
pub open spec fn button_effect(
    s: PointerState,
    button: Button,
    pressed: bool,
    space_down: bool,
    hovered: bool,
    inside: bool,
) -> (PointerState, ToolSignal) {
    match button {
        Button::Primary => {
            let panning = pressed && (space_down || s.panning);
            let signal = if !pressed {
                ToolSignal::Release
            } else if !panning && hovered && inside {
                ToolSignal::Press
            } else {
                ToolSignal::Nothing
            };
            (PointerState { primary_down: pressed, panning, ..s }, signal)
        },
        Button::Secondary => (
            PointerState { rotating: pressed && (hovered || s.rotating), ..s },
            ToolSignal::Nothing,
        ),
        Button::Middle => (
            PointerState { zooming: pressed && (hovered || s.zooming), ..s },
            ToolSignal::Nothing,
        ),
        Button::Other => (s, ToolSignal::Nothing),
    }
}

/// The pointer state and tool signal after a button event.
pub fn on_button(
    s: PointerState,
    button: Button,
    pressed: bool,
    space_down: bool,
    hovered: bool,
    inside: bool,
) -> (r: (PointerState, ToolSignal))
    ensures
        r == button_effect(s, button, pressed, space_down, hovered, inside),
{
    let mut next = s;
    match button {
        Button::Primary => {
            next.primary_down = pressed;
            if pressed && space_down {
                next.panning = true;
            }
            if !pressed {
                next.panning = false;
            }
            let signal = if pressed && !next.panning && hovered {
                if inside {
                    ToolSignal::Press
                } else {
                    ToolSignal::Nothing
                }
            } else if !pressed {
                ToolSignal::Release
            } else {
                ToolSignal::Nothing
            };
            (next, signal)
        },
        Button::Secondary => {
            if pressed && hovered {
                next.rotating = true;
            }
            if !pressed {
                next.rotating = false;
            }
            (next, ToolSignal::Nothing)
        },
        Button::Middle => {
            if pressed && hovered {
                next.zooming = true;
            }
            if !pressed {
                next.zooming = false;
            }
            (next, ToolSignal::Nothing)
        },
        Button::Other => (next, ToolSignal::Nothing),
    }
}

/// A move rotates the view while rotating, else zooms it while zooming,
/// else pans it while panning, else goes to the tool.
pub fn on_move(s: PointerState) -> (r: MoveEffect)
    ensures
        r == on_move_effect(s),
{
    if s.rotating {
        MoveEffect::Rotate
    } else if s.zooming {
        MoveEffect::Zoom
    } else if s.panning {
        MoveEffect::Pan
    } else {
        MoveEffect::Tool
    }
}

/// A move with the brush continues the stroke being drawn, or starts one
/// when the primary button is held over the canvas without panning.
pub fn brush_move(drawing: bool, s: PointerState, hovered: bool, inside: bool) -> (r: StrokeStep)
    ensures
        r == (if drawing {
            StrokeStep::Continue
        } else if s.primary_down && !s.panning && hovered && inside {
            StrokeStep::Start
        } else {
            StrokeStep::Nothing
        }),
{
    if drawing {
        StrokeStep::Continue
    } else if s.primary_down && !s.panning && hovered && inside {
        StrokeStep::Start
    } else {
        StrokeStep::Nothing
    }
}

/// The keyboard shortcuts: Enter commits a transform, Escape cancels the
/// selection, `C` clears the canvas, Ctrl+Z undoes and Ctrl+Shift+Z redoes.
pub fn on_key(key: Key, ctrl: bool, shift: bool) -> (r: Command)
    ensures
        r == match key {
            Key::Enter => Command::CommitTransform,
            Key::Escape => Command::CancelSelection,
            Key::C => Command::ClearCanvas,
            Key::Z => if !ctrl {
                Command::Nothing
            } else if shift {
                Command::Redo
            } else {
                Command::Undo
            },
            Key::Other => Command::Nothing,
        },
{
    match key {
        Key::Enter => Command::CommitTransform,
        Key::Escape => Command::CancelSelection,
        Key::C => Command::ClearCanvas,
        Key::Z => {
            if !ctrl {
                Command::Nothing
            } else if shift {
                Command::Redo
            } else {
                Command::Undo
            }
        },
        Key::Other => Command::Nothing,
    }
}

/// Releasing the primary button always reaches the tool, leaves the button
/// up and ends panning.
pub proof fn lemma_release_reaches_tool(s: PointerState, space_down: bool, hovered: bool, inside: bool)
    ensures
        button_effect(s, Button::Primary, false, space_down, hovered, inside).1 == ToolSignal::Release,
        !button_effect(s, Button::Primary, false, space_down, hovered, inside).0.primary_down,
        !button_effect(s, Button::Primary, false, space_down, hovered, inside).0.panning,
{
}

/// A press while panning never reaches the tool.
pub proof fn lemma_pan_shields_tool(s: PointerState, space_down: bool, hovered: bool, inside: bool)
    requires
        space_down || s.panning,
    ensures
        button_effect(s, Button::Primary, true, space_down, hovered, inside).1 == ToolSignal::Nothing,
{
}

/// A right-button drag started over the view rotates it and a middle-button
/// drag zooms it, as long as no other view drag is under way; releasing
/// the button ends it.
pub proof fn lemma_view_drags(s: PointerState, hovered: bool, inside: bool)
    requires
        hovered,
    ensures
        !s.rotating ==> on_move_effect(button_effect(s, Button::Middle, true, false, hovered, inside).0)
            == MoveEffect::Zoom,
        on_move_effect(button_effect(s, Button::Secondary, true, false, hovered, inside).0)
            == MoveEffect::Rotate,
        !button_effect(s, Button::Secondary, false, false, hovered, inside).0.rotating,
        !button_effect(s, Button::Middle, false, false, hovered, inside).0.zooming,
{
}

/// A move goes to the active tool whenever the view is neither rotated,
/// zoomed nor panned, whether or not the primary button is held; in
/// particular, right after a primary press without the space key that
/// starts no view drag, the next move reaches the tool (the brush paints).
pub proof fn lemma_move_reaches_tool(s: PointerState, hovered: bool, inside: bool)
    ensures
        !s.rotating && !s.zooming && !s.panning ==> on_move_effect(s) == MoveEffect::Tool,
        !s.rotating && !s.zooming && !s.panning ==> on_move_effect(
            button_effect(s, Button::Primary, true, false, hovered, inside).0,
        ) == MoveEffect::Tool,
        on_move_effect(PointerState { primary_down: true, ..s }) == on_move_effect(
            PointerState { primary_down: false, ..s },
        ),
{
}

/// The effect `on_move` gives.
pub open spec fn on_move_effect(s: PointerState) -> MoveEffect {
    if s.rotating {
        MoveEffect::Rotate
    } else if s.zooming {
        MoveEffect::Zoom
    } else if s.panning {
        MoveEffect::Pan
    } else {
        MoveEffect::Tool
    }
}

} // verus!
