use vstd::prelude::*;

verus! {

/// Shape drawn by the selection tool.
#[derive(Debug, Clone, Copy, PartialEq, Eq, Structural)]
pub enum SelectionType {
    Rectangle,
    Circle,
    Lasso,
}

/// What a drag of the transform tool does.
#[derive(Debug, Clone, Copy, PartialEq, Eq, Structural)]
pub enum TransformState {
    /// No drag in progress.
    Idle,
    Moving,
    Rotating,
    /// Index of the handle (0-7).
    Scaling(usize),
}

/// Dockable panels of the tool docks.
#[derive(Clone, Copy, Debug, PartialEq, Eq, Hash, Structural)]
pub enum ToolTab {
    BrushSettings,
    BrushPresets,
    ColorPicker,
    Layers,
}

impl ToolTab {
    /// Title shown on the panel's tab.
    pub fn title(self) -> (r: &'static str)
        ensures
            r@ == (match self {
                ToolTab::BrushSettings => "Brush Settings"@,
                ToolTab::BrushPresets => "Brush Presets"@,
                ToolTab::ColorPicker => "Color Picker"@,
                ToolTab::Layers => "Layers"@,
            }),
    {
        match self {
            ToolTab::BrushSettings => "Brush Settings",
            ToolTab::BrushPresets => "Brush Presets",
            ToolTab::ColorPicker => "Color Picker",
            ToolTab::Layers => "Layers",
        }
    }
}

/// Phase of a pen sample from a drawing tablet.
#[derive(Copy, Clone, Debug, PartialEq, Eq, Structural)]
pub enum TabletPhase {
    Down,
    Move,
    Up,
}

/// Available shapes for how a brush applies paint.
#[derive(Copy, Clone, Debug, PartialEq, Eq, Structural)]
pub enum BrushType {
    Soft,
    Pixel,
}

/// Smoothing applied to the pointer path while painting.
#[derive(Copy, Clone, Debug, PartialEq, Eq, Structural)]
pub enum StabilizerAlgorithm {
    /// No smoothing.
    Off,
    Simple,
    Dynamic,
}

/// Blending strategy for how source colour affects the destination.
#[derive(Copy, Clone, Debug, PartialEq, Eq, Structural)]
pub enum BlendMode {
    Normal,
    Eraser,
}

/// How the brush softness falloff is calculated.
#[derive(Copy, Clone, Debug, PartialEq, Eq, Structural)]
pub enum SoftnessSelector {
    Gaussian,
    Curve,
}

/// Footprint of a brush tip.
#[derive(Clone, Debug, PartialEq)]
pub enum PixelBrushShape {
    Circle,
    Square,
    Custom {
        width: usize,
        height: usize,
        /// 0-255 coverage mask, rows first.
        data: Vec<u8>,
    },
}

} // verus!
