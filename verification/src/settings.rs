use vstd::prelude::*;
use crate::pixel::Pixel;
use crate::text::{str_eq, eq_ignore_ascii_case};

verus! {

/// Unit in which new canvas dimensions are entered.
#[derive(Clone, Copy, Debug, PartialEq, Eq, Structural)]
pub enum CanvasUnit {
    Pixels,
    Inches,
    Millimeters,
    Centimeters,
}

impl CanvasUnit {
    /// Short label of the unit.
    pub fn label(&self) -> (r: &'static str)
        ensures
            r@ == (match *self {
                CanvasUnit::Pixels => "px"@,
                CanvasUnit::Inches => "in"@,
                CanvasUnit::Millimeters => "mm"@,
                CanvasUnit::Centimeters => "cm"@,
            }),
    {
        match self {
            CanvasUnit::Pixels => "px",
            CanvasUnit::Inches => "in",
            CanvasUnit::Millimeters => "mm",
            CanvasUnit::Centimeters => "cm",
        }
    }
}

#[derive(Clone, Copy, Debug, PartialEq, Eq, Structural)]
pub enum Orientation {
    Portrait,
    Landscape,
}

/// Background of a new canvas.
#[derive(Clone, Copy, Debug, PartialEq, Eq, Structural)]
pub enum BackgroundChoice {
    Transparent,
    White,
    Black,
    Custom,
}

#[derive(Clone, Copy, Debug, PartialEq, Eq, Structural)]
pub enum ColorModel {
    Rgba,
    Grayscale,
}

#[derive(Clone, Copy, Debug, PartialEq, Eq, Structural)]
pub enum ColorDepth {
    Bit8,
    Bit16,
    Float32,
}

/// Painting backend selected on the command line.
#[derive(Copy, Clone, Debug, PartialEq, Eq, Structural)]
pub enum PaintBackend {
    Cpu,
}

/// Background colour of a new canvas for the chosen background; `custom`
/// is the user's colour for `BackgroundChoice::Custom`. Both colour models
/// keep the colour as it is.
pub fn background_pixel(choice: BackgroundChoice, custom: Pixel, model: ColorModel) -> (p: Pixel)
    ensures
        p == (match choice {
            BackgroundChoice::Transparent => Pixel { r: 0, g: 0, b: 0, a: 0 },
            BackgroundChoice::White => Pixel { r: 255, g: 255, b: 255, a: 255 },
            BackgroundChoice::Black => Pixel { r: 0, g: 0, b: 0, a: 255 },
            BackgroundChoice::Custom => custom,
        }),
{
    let base = match choice {
        BackgroundChoice::Transparent => Pixel::transparent(),
        BackgroundChoice::White => Pixel::from_rgba_premultiplied(255, 255, 255, 255),
        BackgroundChoice::Black => Pixel::from_rgba_premultiplied(0, 0, 0, 255),
        BackgroundChoice::Custom => custom,
    };
    match model {
        ColorModel::Rgba => base,
        ColorModel::Grayscale => base,
    }
}

/// Pick the painting backend from the command-line arguments (the first
/// being the program's name): `--cpu`, `--backend=cpu` and `--backend cpu`
/// (any case) select the CPU backend, the only one, which is also the
/// default.
pub fn parse_backend_args(args: &Vec<String>) -> (b: PaintBackend)
    ensures
        b == PaintBackend::Cpu,
{
    let mut backend = PaintBackend::Cpu;
    let mut i: usize = 1;
    while i < args.len()
        invariant
            backend == PaintBackend::Cpu,
        decreases args@.len() - i,
    {
        let arg = args[i].as_str();
        i = i + 1;
        if str_eq(arg, "--cpu") || str_eq(arg, "--backend=cpu") {
            backend = PaintBackend::Cpu;
        } else if str_eq(arg, "--backend") {
            if i < args.len() {
                let next = args[i].as_str();
                i = i + 1;
                if eq_ignore_ascii_case(next, "cpu") {
                    backend = PaintBackend::Cpu;
                }
            }
        }
    }
    backend
}

} // verus!
