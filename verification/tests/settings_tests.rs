use rusty_painter::export::{ensure_extension, keeps_extension, ExportFormat, ExportSettings};
use rusty_painter::pixel::Pixel;
use rusty_painter::profiler::{ScopeTimer, Stats};
use rusty_painter::settings::{background_pixel, parse_backend_args, BackgroundChoice, CanvasUnit, ColorModel, PaintBackend};
use rusty_painter::tips::{brush_tip_name, is_brush_tip_path};
use rusty_painter::tools::ToolTab;

#[test]
fn export_format_names() {
    assert_eq!(ExportFormat::PNG.label(), "PNG");
    assert_eq!(ExportFormat::JPEG.label(), "JPEG");
    assert_eq!(ExportFormat::TIFF.label(), "TIFF");
    assert_eq!(ExportFormat::PNG.extension(), "png");
    assert_eq!(ExportFormat::JPEG.extension(), "jpg");
    assert_eq!(ExportFormat::TIFF.extension(), "tiff");
}

#[test]
fn export_settings_defaults() {
    let mut s = ExportSettings::new();
    assert_eq!(s.format, ExportFormat::PNG);
    assert!(s.chosen_path.is_none());
    assert_eq!(s.base_name, "export");
    assert_eq!(s.default_file_name(), "export.png");
    assert_eq!(s.output_path(), "export.png");
    s.format = ExportFormat::JPEG;
    assert_eq!(s.default_file_name(), "export.jpg");
    s.base_name = String::from("drawing");
    s.format = ExportFormat::TIFF;
    assert_eq!(s.output_path(), "drawing.tiff");
}

#[test]
fn output_path_ensures_extension() {
    let mut s = ExportSettings::new();
    s.chosen_path = Some(String::from("/tmp/pic.PNG"));
    assert_eq!(s.output_path(), "/tmp/pic.PNG");
    s.format = ExportFormat::JPEG;
    assert_eq!(s.output_path(), "/tmp/pic.jpg");
    s.chosen_path = Some(String::from("/tmp/pic"));
    s.format = ExportFormat::TIFF;
    assert_eq!(s.output_path(), "/tmp/pic.tiff");
}

#[test]
fn extension_rules() {
    assert_eq!(ensure_extension(String::from("out.png"), "jpg"), "out.jpg");
    assert_eq!(ensure_extension(String::from("out.JpG"), "jpg"), "out.JpG");
    assert_eq!(ensure_extension(String::from("dir/noext"), "tiff"), "dir/noext.tiff");
    assert_eq!(ensure_extension(String::from("a.b.c"), "png"), "a.b.png");
    assert!(keeps_extension(&Some(String::from("JPG")), "jpg"));
    assert!(!keeps_extension(&Some(String::from("jpeg")), "jpg"));
    assert!(!keeps_extension(&None, "jpg"));
}

#[test]
fn ensure_extension_is_idempotent() {
    for p in ["out.png", "dir/noext", "a.b.c", ".hidden", "x.", "/", ""] {
        let once = ensure_extension(String::from(p), "jpg");
        assert_eq!(ensure_extension(once.clone(), "jpg"), once);
    }
    assert_eq!(ensure_extension(String::from("/"), "jpg"), "/");
}

#[test]
fn unit_labels_and_tab_titles() {
    assert_eq!(CanvasUnit::Pixels.label(), "px");
    assert_eq!(CanvasUnit::Inches.label(), "in");
    assert_eq!(CanvasUnit::Millimeters.label(), "mm");
    assert_eq!(CanvasUnit::Centimeters.label(), "cm");
    assert_eq!(ToolTab::BrushSettings.title(), "Brush Settings");
    assert_eq!(ToolTab::BrushPresets.title(), "Brush Presets");
    assert_eq!(ToolTab::ColorPicker.title(), "Color Picker");
    assert_eq!(ToolTab::Layers.title(), "Layers");
}

#[test]
fn background_colours() {
    let custom = Pixel::from_rgba_premultiplied(1, 2, 3, 4);
    assert_eq!(background_pixel(BackgroundChoice::Transparent, custom, ColorModel::Rgba), Pixel::transparent());
    assert_eq!(
        background_pixel(BackgroundChoice::White, custom, ColorModel::Grayscale),
        Pixel::from_rgba_premultiplied(255, 255, 255, 255)
    );
    assert_eq!(
        background_pixel(BackgroundChoice::Black, custom, ColorModel::Rgba),
        Pixel::from_rgba_premultiplied(0, 0, 0, 255)
    );
    assert_eq!(background_pixel(BackgroundChoice::Custom, custom, ColorModel::Rgba), custom);
}

#[test]
fn backend_arguments() {
    let args = |v: &[&str]| v.iter().map(|s| s.to_string()).collect::<Vec<String>>();
    assert_eq!(parse_backend_args(&args(&["painter"])), PaintBackend::Cpu);
    assert_eq!(parse_backend_args(&args(&["painter", "--cpu"])), PaintBackend::Cpu);
    assert_eq!(parse_backend_args(&args(&["painter", "--backend", "CPU"])), PaintBackend::Cpu);
    assert_eq!(parse_backend_args(&args(&["painter", "--backend"])), PaintBackend::Cpu);
}

#[test]
fn stats_accumulate() {
    let mut s = Stats::new();
    assert_eq!(s.avg(), 0);
    s.update(100);
    s.update(50);
    assert_eq!((s.total, s.count, s.max, s.last), (150, 2, 100, 50));
    assert_eq!(s.avg(), 75);
    s.update(1);
    assert_eq!(s.avg(), 50);
    assert_eq!(s.max, 100);
}

#[test]
fn disabled_timer_records_nothing() {
    let t = ScopeTimer::new("stroke");
    assert_eq!(t.name(), "stroke");
    assert!(!t.enabled());
    let mut s = Stats::new();
    assert!(!t.record(&mut s));
    assert_eq!(s.count, 0);
    assert!(!t.add_sample(&mut s, 1_000));
    assert_eq!(s.count, 0);
    assert_eq!(s.total, 0);
}

#[test]
fn ensure_extension_keeps_stem_and_sets_extension() {
    let out = ensure_extension(String::from("dir/shot.final.PNG"), "jpg");
    assert_eq!(out, "dir/shot.final.jpg");
    let path = std::path::Path::new(&out);
    assert_eq!(path.file_stem().and_then(|s| s.to_str()), Some("shot.final"));
    assert_eq!(path.parent().and_then(|s| s.to_str()), Some("dir"));
    let mut s = ExportSettings::new();
    s.format = ExportFormat::TIFF;
    s.chosen_path = Some(String::from(".hidden"));
    assert_eq!(s.output_path(), ".hidden.tiff");
}

#[test]
fn brush_tip_files() {
    assert!(is_brush_tip_path(&String::from("tips/round.PNG")));
    assert!(is_brush_tip_path(&String::from("tips/a.b.jpeg")));
    assert!(is_brush_tip_path(&String::from("tips/x.Bmp")));
    assert!(!is_brush_tip_path(&String::from("tips/readme.txt")));
    assert!(!is_brush_tip_path(&String::from("tips/noext")));
    assert!(!is_brush_tip_path(&String::from("tips/.png")));
    assert_eq!(brush_tip_name(&String::from("tips/round.PNG")), "round");
    assert_eq!(brush_tip_name(&String::from("tips/a.b.jpeg")), "a.b");
    assert_eq!(brush_tip_name(&String::from("/")), "");
}
