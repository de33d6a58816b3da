use sprite_pack::loader::{has_png_extension, Decoded, LoadReport, SkipReason, Skipped};
use sprite_pack::pack::pack_images;
use sprite_pack::raster::{Pixel, Raster};

fn plain_raster(value: u8) -> Raster {
    Raster::new(16, 16, vec![Pixel::new(value, value, value, 255); 256]).unwrap()
}

#[test]
fn png_extension_is_recognised() {
    assert!(has_png_extension(b"a.png"));
    assert!(has_png_extension(b"sprite_01.png"));
    assert!(has_png_extension(b"a..png"));
    assert!(!has_png_extension(b".png"));
    assert!(!has_png_extension(b"png"));
    assert!(!has_png_extension(b"a.PNG"));
    assert!(!has_png_extension(b"a.png.bak"));
    assert!(!has_png_extension(b"a.jpg"));
    assert!(!has_png_extension(b""));
}

#[test]
fn corrupt_file_is_skipped_and_the_rest_pack() {
    let mut report = LoadReport::new();
    report.record("a.png".to_string(), Decoded::Rgba8(plain_raster(1)));
    report.record("b.png".to_string(), Decoded::Rgba8(plain_raster(2)));
    report.record(
        "broken.png".to_string(),
        Decoded::Undecodable { message: "invalid signature".to_string() },
    );
    report.record("c.png".to_string(), Decoded::Rgba8(plain_raster(3)));
    assert_eq!(report.rasters.len(), 3);
    assert_eq!(
        report.skipped,
        vec![Skipped {
            path: "broken.png".to_string(),
            reason: SkipReason::UndecodableImage { message: "invalid signature".to_string() },
        }]
    );
    let sheet = pack_images(&report.rasters).unwrap();
    assert_eq!(sheet.dimensions(), (32, 32));
    assert_eq!(sheet.get_pixel(16, 16), Pixel::transparent());
    assert_eq!(sheet.get_pixel(0, 16), Pixel::new(3, 3, 3, 255));
}

#[test]
fn other_pixel_formats_are_skipped_in_order() {
    let mut report = LoadReport::new();
    report.record("a.png".to_string(), Decoded::OtherFormat { color: "Rgb8".to_string() });
    report.record("b.png".to_string(), Decoded::Rgba8(plain_raster(7)));
    report.record("c.png".to_string(), Decoded::OtherFormat { color: "L16".to_string() });
    assert_eq!(report.rasters.len(), 1);
    assert_eq!(report.rasters[0].get_pixel(0, 0), Pixel::new(7, 7, 7, 255));
    assert_eq!(report.skipped.len(), 2);
    assert_eq!(report.skipped[0].path, "a.png");
    assert_eq!(
        report.skipped[1].reason,
        SkipReason::UnsupportedPixelFormat { color: "L16".to_string() }
    );
}
