use std::path::PathBuf;

use lexicon_docx::exhibit::{detect_file_type, fit_to_page, resolve_exhibit_path, ExhibitFileType};

#[test]
fn test_detect_file_type() {
    assert!(matches!(detect_file_type("foo.png"), Ok(ExhibitFileType::Png)));
    assert!(matches!(detect_file_type("foo.jpg"), Ok(ExhibitFileType::Jpeg)));
    assert!(matches!(detect_file_type("foo.jpeg"), Ok(ExhibitFileType::Jpeg)));
    assert!(matches!(detect_file_type("foo.pdf"), Ok(ExhibitFileType::Pdf)));
    assert!(matches!(detect_file_type("foo.docx"), Err(_)));
}

#[test]
fn test_resolve_exhibit_path_absolute() {
    let result = resolve_exhibit_path("/tmp/test.png", None).unwrap();
    assert_eq!(PathBuf::from(result), PathBuf::from("/tmp/test.png"));
}

#[test]
fn test_resolve_exhibit_path_relative() {
    let result = resolve_exhibit_path("images/test.png", Some("/docs")).unwrap();
    assert_eq!(PathBuf::from(result), PathBuf::from("/docs/images/test.png"));
}

#[test]
fn test_resolve_exhibit_path_relative_no_dir() {
    let result = resolve_exhibit_path("test.png", None);
    assert!(result.is_err());
}

#[test]
fn test_fit_to_page_no_scaling_needed() {
    // Small image that fits
    let (w, h) = fit_to_page(100, 100, 5_000_000, 5_000_000);
    assert_eq!(w, 100 * 9525);
    assert_eq!(h, 100 * 9525);
}

#[test]
fn test_fit_to_page_scale_by_width() {
    // 2000px = 19_050_000 EMU, scaled by 0.5 to 9_525_000
    let (w, h) = fit_to_page(2000, 100, 9_525_000, 9_525_000);
    assert_eq!(w, 9_525_000);
    assert_eq!(h, 952_500 / 2);
}

#[test]
fn test_fit_to_page_scale_by_height() {
    let (w, h) = fit_to_page(100, 2000, 9_525_000, 9_525_000);
    assert_eq!(h, 9_525_000);
    assert_eq!(w, 952_500 / 2);
}

#[test]
fn test_fit_to_page_preserves_aspect_ratio() {
    let (w, h) = fit_to_page(1600, 1200, 5_000_000, 5_000_000);
    let original_ratio = 1600.0 / 1200.0;
    let fitted_ratio = w as f64 / h as f64;
    assert!((original_ratio - fitted_ratio).abs() < 0.01);
}

#[test]
fn fit_to_page_zero_width_image_scales_by_height() {
    let (w, h) = fit_to_page(0, 2000, 0, 9_525_000);
    assert_eq!((w, h), (0, 9_525_000));
}

#[test]
fn fit_to_page_rounds_down() {
    // 3px tall at a third of its width: 28_575 * 1_000_000 / 2_857_500 = 10_000
    let (w, h) = fit_to_page(300, 3, 1_000_000, 1_000_000);
    assert_eq!((w, h), (1_000_000, 10_000));
}
