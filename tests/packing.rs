use sprite_pack::grid::{grid_side, sheet_size};
use sprite_pack::pack::{pack_images, PackError};
use sprite_pack::raster::{Pixel, Raster};

fn tagged_raster(tag: u8, width: u32, height: u32) -> Raster {
    let mut pixels = Vec::new();
    for y in 0..height {
        for x in 0..width {
            pixels.push(Pixel::new(tag, x as u8, y as u8, 255));
        }
    }
    Raster::new(width, height, pixels).unwrap()
}

fn tagged_rasters(count: u8, width: u32, height: u32) -> Vec<Raster> {
    (0..count).map(|t| tagged_raster(t, width, height)).collect()
}

fn cell_matches(sheet: &Raster, side: u32, cell: u32, source: &Raster) -> bool {
    let (w, h) = source.dimensions();
    let x0 = (cell % side) * w;
    let y0 = (cell / side) * h;
    (0..h).all(|ly| (0..w).all(|lx| sheet.get_pixel(x0 + lx, y0 + ly) == source.get_pixel(lx, ly)))
}

fn cell_is_transparent(sheet: &Raster, side: u32, cell: u32, w: u32, h: u32) -> bool {
    let x0 = (cell % side) * w;
    let y0 = (cell / side) * h;
    (0..h).all(|ly| (0..w).all(|lx| sheet.get_pixel(x0 + lx, y0 + ly) == Pixel::transparent()))
}

#[test]
fn four_rasters_fill_a_two_by_two_grid() {
    let images = tagged_rasters(4, 16, 16);
    let sheet = pack_images(&images).unwrap();
    assert_eq!(sheet.dimensions(), (32, 32));
    assert_eq!(sheet.pixels.len(), 32 * 32);
    for cell in 0..4u32 {
        assert!(cell_matches(&sheet, 2, cell, &images[cell as usize]));
    }
}

#[test]
fn five_rasters_leave_four_transparent_cells() {
    let images = tagged_rasters(5, 16, 16);
    let sheet = pack_images(&images).unwrap();
    assert_eq!(sheet.dimensions(), (48, 48));
    for cell in 0..5u32 {
        assert!(cell_matches(&sheet, 3, cell, &images[cell as usize]));
    }
    for cell in 5..9u32 {
        assert!(cell_is_transparent(&sheet, 3, cell, 16, 16));
    }
}

#[test]
fn one_raster_is_insufficient() {
    let images = tagged_rasters(1, 16, 16);
    assert_eq!(pack_images(&images).unwrap_err(), PackError::InsufficientImages { count: 1 });
}

#[test]
fn no_raster_is_insufficient() {
    let images: Vec<Raster> = Vec::new();
    assert_eq!(pack_images(&images).unwrap_err(), PackError::InsufficientImages { count: 0 });
}

#[test]
fn outlier_size_is_a_mismatch() {
    let mut images = tagged_rasters(3, 16, 16);
    images.push(tagged_raster(3, 32, 32));
    assert_eq!(
        pack_images(&images).unwrap_err(),
        PackError::DimensionMismatch {
            index: 3,
            actual_width: 32,
            actual_height: 32,
            expected_width: 16,
            expected_height: 16,
        }
    );
}

#[test]
fn first_of_several_mismatches_is_reported() {
    let images = vec![
        tagged_raster(0, 8, 8),
        tagged_raster(1, 8, 8),
        tagged_raster(2, 8, 4),
        tagged_raster(3, 2, 2),
    ];
    assert_eq!(
        pack_images(&images).unwrap_err(),
        PackError::DimensionMismatch {
            index: 2,
            actual_width: 8,
            actual_height: 4,
            expected_width: 8,
            expected_height: 8,
        }
    );
}

#[test]
fn packing_twice_gives_identical_sheets() {
    let images = tagged_rasters(7, 5, 3);
    let a = pack_images(&images).unwrap();
    let b = pack_images(&images).unwrap();
    assert_eq!(a.dimensions(), b.dimensions());
    assert_eq!(a.pixels, b.pixels);
}

#[test]
fn reordering_moves_cells_and_keeps_size() {
    let images = tagged_rasters(3, 4, 4);
    let reversed: Vec<Raster> = vec![
        tagged_raster(2, 4, 4),
        tagged_raster(1, 4, 4),
        tagged_raster(0, 4, 4),
    ];
    let a = pack_images(&images).unwrap();
    let b = pack_images(&reversed).unwrap();
    assert_eq!(a.dimensions(), b.dimensions());
    assert_ne!(a.pixels, b.pixels);
    assert!(cell_matches(&b, 2, 0, &images[2]));
    assert!(cell_matches(&b, 2, 2, &images[0]));
}

#[test]
fn rectangular_cells_are_placed_row_by_row() {
    let images = tagged_rasters(3, 3, 2);
    let sheet = pack_images(&images).unwrap();
    assert_eq!(sheet.dimensions(), (6, 4));
    assert_eq!(sheet.get_pixel(0, 0), Pixel::new(0, 0, 0, 255));
    assert_eq!(sheet.get_pixel(4, 1), Pixel::new(1, 1, 1, 255));
    assert_eq!(sheet.get_pixel(2, 3), Pixel::new(2, 2, 1, 255));
    assert_eq!(sheet.get_pixel(5, 3), Pixel::new(0, 0, 0, 0));
}

#[test]
fn empty_rasters_pack_into_an_empty_sheet() {
    let images = tagged_rasters(3, 0, 0);
    let sheet = pack_images(&images).unwrap();
    assert_eq!(sheet.dimensions(), (0, 0));
    assert!(sheet.pixels.is_empty());
}

#[test]
fn grid_side_is_the_ceiling_of_the_square_root() {
    let expected = [(0usize, 0usize), (1, 1), (2, 2), (4, 2), (5, 3), (9, 3), (10, 4), (16, 4), (17, 5)];
    for (n, side) in expected {
        assert_eq!(grid_side(n), side);
    }
    assert_eq!(grid_side(usize::MAX), 1usize << 32);
}

#[test]
fn sheet_size_scales_the_cell_by_the_side() {
    assert_eq!(sheet_size(5, 16, 8), Some((48, 24)));
    assert_eq!(sheet_size(2, 0, 7), Some((0, 14)));
    assert_eq!(sheet_size(4, u32::MAX, 1), None);
}

#[test]
fn raster_needs_one_pixel_per_position() {
    assert!(Raster::new(2, 2, vec![Pixel::transparent(); 3]).is_none());
    assert!(Raster::new(2, 2, vec![Pixel::transparent(); 5]).is_none());
    let r = Raster::new(2, 3, vec![Pixel::new(1, 2, 3, 4); 6]).unwrap();
    assert_eq!(r.dimensions(), (2, 3));
    assert_eq!(r.get_pixel(1, 2), Pixel::new(1, 2, 3, 4));
}
