use vstd::prelude::*;

use crate::grid::{ceil_sqrt, grid_side, lemma_ceil_sqrt, lemma_ceil_sqrt_at_least_two, sheet_fits};
use crate::raster::{lemma_row_major, row_major, transparent_spec, Pixel, Raster};

verus! {

/// Why a collection of rasters cannot be packed.
#[derive(Clone, Copy, Debug, PartialEq, Eq, Structural)]
pub enum PackError {
    /// Fewer than two rasters were given.
    InsufficientImages { count: usize },
    /// The raster at `index` is the first whose size differs from the
    /// size of the first raster.
    DimensionMismatch {
        index: usize,
        actual_width: u32,
        actual_height: u32,
        expected_width: u32,
        expected_height: u32,
    },
}

/// Every raster of the collection is well formed.
pub open spec fn all_wf(images: Seq<Raster>) -> bool {
    forall|i: int| 0 <= i < images.len() ==> #[trigger] images[i].wf()
}

/// Every raster of the collection has the size of the first one.
pub open spec fn uniform(images: Seq<Raster>) -> bool {
    forall|i: int| 0 <= i < images.len() ==> #[trigger] images[i].same_size(&images[0])
}

/// `i` is the first position whose raster differs in size from the first.
pub open spec fn is_first_mismatch(images: Seq<Raster>, i: int) -> bool {
    &&& 0 < i < images.len()
    &&& !images[i].same_size(&images[0])
    &&& forall|j: int| 0 <= j < i ==> #[trigger] images[j].same_size(&images[0])
}

/// Row-major index of the cell that holds sheet pixel `(x, y)`, for cells
/// of `w` x `h` pixels in a grid `side` cells wide.
pub open spec fn cell_index(x: nat, y: nat, side: nat, w: nat, h: nat) -> nat {
    x / w + (y / h) * side
}

/// What the sheet holds at `(x, y)`: the matching pixel of the raster of
/// that cell, or a transparent pixel where the cell has no raster.
pub open spec fn sheet_pixel(images: Seq<Raster>, side: nat, x: nat, y: nat) -> Pixel {
    let w = images[0].width as nat;
    let h = images[0].height as nat;
    let cell = cell_index(x, y, side, w, h);
    if cell < images.len() {
        images[cell as int].pixel_at(x % w, y % h)
    } else {
        transparent_spec()
    }
}

/// `sheet` is the packing of `images`: a grid of `ceil_sqrt(n)` cells a
/// side, each cell the size of the first raster, filled row by row.
pub open spec fn is_packing_of(images: Seq<Raster>, sheet: Raster) -> bool {
    let side = ceil_sqrt(images.len());
    &&& sheet.width == side * images[0].width
    &&& sheet.height == side * images[0].height
    &&& sheet.wf()
    &&& forall|x: nat, y: nat|
        x < sheet.width && y < sheet.height ==> #[trigger] sheet.pixel_at(x, y) == sheet_pixel(
            images,
            side,
            x,
            y,
        )
}

/// The cell of a pixel inside a `side` x `side` grid lies inside the grid.
pub proof fn lemma_cell_in_grid(x: nat, y: nat, side: nat, w: nat, h: nat)
    requires
        w > 0,
        h > 0,
        x < side * w,
        y < side * h,
    ensures
        x / w < side,
        y / h < side,
        cell_index(x, y, side, w, h) < side * side,
{
    assert(side * w == w * side && side * h == h * side) by (nonlinear_arith);
    vstd::arithmetic::div_mod::lemma_multiply_divide_lt(x as int, w as int, side as int);
    vstd::arithmetic::div_mod::lemma_multiply_divide_lt(y as int, h as int, side as int);
    let c = x / w;
    let r = y / h;
    assert(c + r * side < side * side) by (nonlinear_arith)
        requires
            c < side,
            r < side,
    ;
}

/// Packs `images` into one square sheet.
///
/// Fails with `InsufficientImages` for fewer than two rasters, and with
/// `DimensionMismatch` at the first raster whose size differs from the
/// first one. Otherwise the sheet is `ceil_sqrt(n)` cells a side; cell
/// `i`, counted row by row, holds raster `i`, and the cells past the last
/// raster are transparent.
pub fn pack_images(images: &Vec<Raster>) -> (r: Result<Raster, PackError>)
    requires
        all_wf(images@),
        images@.len() >= 2 ==> sheet_fits(
            images@.len(),
            images@[0].width as nat,
            images@[0].height as nat,
        ),
    ensures
        images@.len() < 2 ==> r == Err::<Raster, PackError>(
            PackError::InsufficientImages { count: images@.len() as usize },
        ),
        images@.len() >= 2 && !uniform(images@) ==> match r {
            Err(PackError::DimensionMismatch {
                index,
                actual_width,
                actual_height,
                expected_width,
                expected_height,
            }) => {
                &&& is_first_mismatch(images@, index as int)
                &&& actual_width == images@[index as int].width
                &&& actual_height == images@[index as int].height
                &&& expected_width == images@[0].width
                &&& expected_height == images@[0].height
            },
            _ => false,
        },
        images@.len() >= 2 && uniform(images@) ==> match r {
            Ok(sheet) => is_packing_of(images@, sheet),
            _ => false,
        },
{
    let n = images.len();
    if n < 2 {
        return Err(PackError::InsufficientImages { count: n });
    }
    let w = images[0].width;
    let h = images[0].height;
    let mut i: usize = 1;
    while i < n
        invariant
            1 <= i <= n,
            n == images@.len(),
            w == images@[0].width,
            h == images@[0].height,
            forall|j: int| 0 <= j < i ==> #[trigger] images@[j].same_size(&images@[0]),
        decreases n - i,
    {
        if images[i].width != w || images[i].height != h {
            return Err(
                PackError::DimensionMismatch {
                    index: i,
                    actual_width: images[i].width,
                    actual_height: images[i].height,
                    expected_width: w,
                    expected_height: h,
                },
            );
        }
        i = i + 1;
    }
    let side = grid_side(n);
    proof {
        lemma_ceil_sqrt_at_least_two(n as nat);
    }
    let sw: u32 = if w == 0 {
        assert(side * w == 0) by (nonlinear_arith)
            requires
                w == 0,
        ;
        0
    } else {
        proof {
            assert(side <= side * w) by (nonlinear_arith)
                requires
                    w > 0,
            ;
        }
        (side as u32) * w
    };
    let sh: u32 = if h == 0 {
        assert(side * h == 0) by (nonlinear_arith)
            requires
                h == 0,
        ;
        0
    } else {
        proof {
            assert(side <= side * h) by (nonlinear_arith)
                requires
                    h > 0,
            ;
        }
        (side as u32) * h
    };
    let mut pixels: Vec<Pixel> = Vec::new();
    let mut y: u32 = 0;
    while y < sh
        invariant
            y <= sh,
            n == images@.len(),
            n >= 2,
            w == images@[0].width,
            h == images@[0].height,
            side == ceil_sqrt(n as nat),
            sw == side * w,
            sh == side * h,
            (sw as nat) * (sh as nat) <= usize::MAX,
            all_wf(images@),
            uniform(images@),
            pixels@.len() == y * sw,
            forall|k: int|
                0 <= k < pixels@.len() ==> #[trigger] pixels@[k] == sheet_pixel(
                    images@,
                    side as nat,
                    (k % sw as int) as nat,
                    (k / sw as int) as nat,
                ),
        decreases sh - y,
    {
        let mut x: u32 = 0;
        while x < sw
            invariant
                x <= sw,
                y < sh,
                n == images@.len(),
                n >= 2,
                w == images@[0].width,
                h == images@[0].height,
                side == ceil_sqrt(n as nat),
                sw == side * w,
                sh == side * h,
                (sw as nat) * (sh as nat) <= usize::MAX,
                all_wf(images@),
                uniform(images@),
                pixels@.len() == y * sw + x,
                forall|k: int|
                    0 <= k < pixels@.len() ==> #[trigger] pixels@[k] == sheet_pixel(
                        images@,
                        side as nat,
                        (k % sw as int) as nat,
                        (k / sw as int) as nat,
                    ),
            decreases sw - x,
        {
            proof {
                assert(w > 0 && h > 0) by (nonlinear_arith)
                    requires
                        x < side * w,
                        y < side * h,
                ;
                lemma_cell_in_grid(x as nat, y as nat, side as nat, w as nat, h as nat);
                assert((side as nat) * (side as nat) <= (sw as nat) * (sh as nat))
                    by (nonlinear_arith)
                    requires
                        w > 0,
                        h > 0,
                        sw == side * w,
                        sh == side * h,
                ;
            }
            let cell: usize = (x / w) as usize + (y / h) as usize * side;
            let p = if cell < n {
                proof {
                    assert(images@[cell as int].same_size(&images@[0]));
                    assert(images@[cell as int].wf());
                }
                images[cell].get_pixel(x % w, y % h)
            } else {
                Pixel::transparent()
            };
            proof {
                lemma_row_major(x as nat, y as nat, sw as nat, sh as nat);
            }
            pixels.push(p);
            x = x + 1;
        }
        proof {
            assert(y * sw + sw == (y + 1) * sw) by (nonlinear_arith);
        }
        y = y + 1;
    }
    let sheet = Raster { width: sw, height: sh, pixels };
    proof {
        assert(sh * sw == sw * sh) by (nonlinear_arith);
        assert forall|xx: nat, yy: nat| xx < sw && yy < sh implies #[trigger] sheet.pixel_at(
            xx,
            yy,
        ) == sheet_pixel(images@, side as nat, xx, yy) by {
            lemma_row_major(xx, yy, sw as nat, sh as nat);
            let k = row_major(xx, yy, sw as nat) as int;
            assert(sheet.pixels@[k] == sheet_pixel(
                images@,
                side as nat,
                (k % sw as int) as nat,
                (k / sw as int) as nat,
            ));
        }
    }
    Ok(sheet)
}

/// Pixel `(lx, ly)` of cell `cell`, which stands at column `cell % side`
/// and row `cell / side` of the grid.
pub open spec fn cell_pixel(images: Seq<Raster>, sheet: Raster, cell: nat, lx: nat, ly: nat) -> Pixel {
    let side = ceil_sqrt(images.len());
    sheet.pixel_at(
        (cell % side) * (images[0].width as nat) + lx,
        (cell / side) * (images[0].height as nat) + ly,
    )
}

/// Where the pixel `(lx, ly)` of cell `cell` lies on the sheet, and that it
/// maps back to that cell and that local position.
proof fn lemma_cell_position(n: nat, side: nat, w: nat, h: nat, cell: nat, lx: nat, ly: nat)
    requires
        side == ceil_sqrt(n),
        n >= 2,
        cell < side * side,
        lx < w,
        ly < h,
    ensures
        ({
            let x = (cell % side) * w + lx;
            let y = (cell / side) * h + ly;
            &&& x < side * w
            &&& y < side * h
            &&& x % w == lx
            &&& y % h == ly
            &&& cell_index(x, y, side, w, h) == cell
        }),
{
    lemma_ceil_sqrt_at_least_two(n);
    let c = cell % side;
    let r = cell / side;
    vstd::arithmetic::div_mod::lemma_fundamental_div_mod(cell as int, side as int);
    vstd::arithmetic::div_mod::lemma_multiply_divide_lt(cell as int, side as int, side as int);
    assert(c < side);
    let x = c * w + lx;
    let y = r * h + ly;
    assert(x < side * w && y < side * h) by (nonlinear_arith)
        requires
            c < side,
            r < side,
            lx < w,
            ly < h,
            x == c * w + lx,
            y == r * h + ly,
    ;
    vstd::arithmetic::div_mod::lemma_fundamental_div_mod_converse(x as int, w as int, c as int, lx as int);
    vstd::arithmetic::div_mod::lemma_fundamental_div_mod_converse(y as int, h as int, r as int, ly as int);
    assert(c + r * side == cell) by (nonlinear_arith)
        requires
            cell == side * r + c,
    ;
}

/// Each cell that has a raster holds that raster pixel for pixel: cell
/// `cell` of the sheet, at column `cell % side` and row `cell / side`,
/// equals raster `cell` of the collection.
pub proof fn lemma_filled_cell(images: Seq<Raster>, sheet: Raster, cell: nat, lx: nat, ly: nat)
    requires
        images.len() >= 2,
        uniform(images),
        is_packing_of(images, sheet),
        cell < images.len(),
        lx < images[0].width,
        ly < images[0].height,
    ensures
        cell_pixel(images, sheet, cell, lx, ly) == images[cell as int].pixel_at(lx, ly),
{
    let n = images.len();
    let side = ceil_sqrt(n);
    lemma_ceil_sqrt(n);
    lemma_cell_position(n, side, images[0].width as nat, images[0].height as nat, cell, lx, ly);
    assert(images[cell as int].same_size(&images[0]));
}

/// Each cell past the last raster is fully transparent.
pub proof fn lemma_empty_cell(images: Seq<Raster>, sheet: Raster, cell: nat, lx: nat, ly: nat)
    requires
        images.len() >= 2,
        is_packing_of(images, sheet),
        images.len() <= cell < ceil_sqrt(images.len()) * ceil_sqrt(images.len()),
        lx < images[0].width,
        ly < images[0].height,
    ensures
        cell_pixel(images, sheet, cell, lx, ly) == transparent_spec(),
{
    let n = images.len();
    lemma_cell_position(n, ceil_sqrt(n), images[0].width as nat, images[0].height as nat, cell, lx, ly);
}

/// Packing is deterministic: two packings of the same collection have the
/// same size and the same pixels.
pub proof fn lemma_packing_unique(images: Seq<Raster>, s1: Raster, s2: Raster)
    requires
        is_packing_of(images, s1),
        is_packing_of(images, s2),
    ensures
        s1.width == s2.width,
        s1.height == s2.height,
        s1.pixels@ == s2.pixels@,
{
    let w = s1.width as nat;
    let h = s1.height as nat;
    assert forall|k: int| 0 <= k < s1.pixels@.len() implies s1.pixels@[k] == s2.pixels@[k] by {
        assert(w > 0) by (nonlinear_arith)
            requires
                k < w * h,
                0 <= k,
        ;
        vstd::arithmetic::div_mod::lemma_fundamental_div_mod(k, w as int);
        vstd::arithmetic::div_mod::lemma_multiply_divide_lt(k, w as int, h as int);
        let x = (k % w as int) as nat;
        let y = (k / w as int) as nat;
        assert(row_major(x, y, w) == k) by (nonlinear_arith)
            requires
                k == w * y + x,
        ;
        assert(s1.pixel_at(x, y) == s2.pixel_at(x, y));
    }
    assert(s1.pixels@ =~= s2.pixels@);
}

/// Reordering the collection keeps the size of the sheet.
pub proof fn lemma_reorder_keeps_size(a: Seq<Raster>, b: Seq<Raster>, sa: Raster, sb: Raster)
    requires
        a.len() >= 2,
        uniform(a),
        a.to_multiset() =~= b.to_multiset(),
        is_packing_of(a, sa),
        is_packing_of(b, sb),
    ensures
        sa.width == sb.width,
        sa.height == sb.height,
{
    broadcast use vstd::seq_lib::group_to_multiset_ensures;

    assert(a.len() == a.to_multiset().len());
    assert(b.len() == b.to_multiset().len());
    assert(b.contains(b[0]));
    assert(b.to_multiset().count(b[0]) > 0);
    assert(a.to_multiset().count(b[0]) > 0);
    assert(a.contains(b[0]));
    let j = choose|j: int| 0 <= j < a.len() && a[j] == b[0];
    assert(a[j].same_size(&a[0]));
}

/// Cells follow the order of the collection: where two collections of the
/// same size differ in the pixels of the raster at some position, their
/// sheets differ.
pub proof fn lemma_order_decides_cells(
    a: Seq<Raster>,
    b: Seq<Raster>,
    sa: Raster,
    sb: Raster,
    cell: nat,
)
    requires
        a.len() >= 2,
        a.len() == b.len(),
        all_wf(a),
        all_wf(b),
        uniform(a),
        uniform(b),
        a[0].same_size(&b[0]),
        is_packing_of(a, sa),
        is_packing_of(b, sb),
        cell < a.len(),
        a[cell as int].pixels@ != b[cell as int].pixels@,
    ensures
        sa.pixels@ != sb.pixels@,
{
    let ra = a[cell as int];
    let rb = b[cell as int];
    assert(ra.same_size(&a[0]) && rb.same_size(&b[0]));
    assert(ra.wf() && rb.wf());
    let w = ra.width as nat;
    let h = ra.height as nat;
    assert(ra.pixels@.len() == rb.pixels@.len());
    if forall|k: int| 0 <= k < ra.pixels@.len() ==> ra.pixels@[k] == rb.pixels@[k] {
        assert(ra.pixels@ =~= rb.pixels@);
    }
    let k = choose|k: int| 0 <= k < ra.pixels@.len() && ra.pixels@[k] != rb.pixels@[k];
    assert(w > 0) by (nonlinear_arith)
        requires
            k < w * h,
            0 <= k,
    ;
    vstd::arithmetic::div_mod::lemma_fundamental_div_mod(k, w as int);
    vstd::arithmetic::div_mod::lemma_multiply_divide_lt(k, w as int, h as int);
    let lx = (k % w as int) as nat;
    let ly = (k / w as int) as nat;
    assert(row_major(lx, ly, w) == k) by (nonlinear_arith)
        requires
            k == w * ly + lx,
    ;
    lemma_filled_cell(a, sa, cell, lx, ly);
    lemma_filled_cell(b, sb, cell, lx, ly);
    let side = ceil_sqrt(a.len());
    lemma_ceil_sqrt(a.len());
    lemma_cell_position(a.len(), side, w, h, cell, lx, ly);
    let x = (cell % side) * w + lx;
    let y = (cell / side) * h + ly;
    lemma_row_major(x, y, sa.width as nat, sa.height as nat);
    if sa.pixels@ == sb.pixels@ {
        assert(sa.pixel_at(x, y) == sb.pixel_at(x, y));
    }
}

} // verus!
