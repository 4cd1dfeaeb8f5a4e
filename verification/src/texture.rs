use vstd::prelude::*;

verus! {

/// Width and height, in pixels, of the texture shown when none could be
/// loaded.
pub const PLACEHOLDER_SIZE: u32 = 16;

/// The colour of pixel (x, y) of the placeholder texture: a checkerboard of
/// four-pixel squares, purple where the square's coordinates add up to an
/// even number and black elsewhere, all opaque.
pub open spec fn placeholder_pixel(x: int, y: int) -> Seq<u8> {
    if (x / 4 + y / 4) % 2 == 0 {
        seq![255u8, 0, 255, 255]
    } else {
        seq![0u8, 0, 0, 255]
    }
}

/// The RGBA bytes of the placeholder texture, row by row.
pub fn placeholder_rgba() -> (r: Vec<u8>)
    ensures
        r@.len() == 4 * PLACEHOLDER_SIZE * PLACEHOLDER_SIZE,
        forall|x: int, y: int, c: int|
            0 <= x < PLACEHOLDER_SIZE && 0 <= y < PLACEHOLDER_SIZE && 0 <= c < 4 ==> #[trigger] r@[(y * 16 + x) * 4 + c]
                == placeholder_pixel(x, y)[c],
{
    let mut rgba: Vec<u8> = Vec::new();
    let mut y: u32 = 0;
    while y < PLACEHOLDER_SIZE
        invariant
            y <= PLACEHOLDER_SIZE,
            rgba@.len() == 64 * y,
            forall|x2: int, y2: int, c: int|
                0 <= x2 < 16 && 0 <= y2 < y && 0 <= c < 4 ==> #[trigger] rgba@[(y2 * 16 + x2) * 4 + c]
                    == placeholder_pixel(x2, y2)[c],
        decreases PLACEHOLDER_SIZE - y,
    {
        let mut x: u32 = 0;
        while x < PLACEHOLDER_SIZE
            invariant
                x <= PLACEHOLDER_SIZE,
                y < PLACEHOLDER_SIZE,
                rgba@.len() == 64 * y + 4 * x,
                forall|x2: int, y2: int, c: int|
                    0 <= x2 < 16 && 0 <= y2 < 16 && 0 <= c < 4 && (y2 < y || (y2 == y && x2 < x)) ==> #[trigger] rgba@[(
                    y2 * 16 + x2) * 4 + c] == placeholder_pixel(x2, y2)[c],
            decreases PLACEHOLDER_SIZE - x,
        {
            let ghost before = rgba@;
            let purple = (x / 4 + y / 4) % 2 == 0;
            if purple {
                rgba.push(255);
                rgba.push(0);
                rgba.push(255);
                rgba.push(255);
            } else {
                rgba.push(0);
                rgba.push(0);
                rgba.push(0);
                rgba.push(255);
            }
            proof {
                let base = 64 * y + 4 * x;
                assert forall|x2: int, y2: int, c: int|
                    0 <= x2 < 16 && 0 <= y2 < 16 && 0 <= c < 4 && (y2 < y || (y2 == y && x2 < x + 1)) implies #[trigger] rgba@[(
                    y2 * 16 + x2) * 4 + c] == placeholder_pixel(x2, y2)[c] by {
                    let k = (y2 * 16 + x2) * 4 + c;
                    if y2 < y || x2 < x {
                        assert(k < base) by (nonlinear_arith)
                            requires
                                k == (y2 * 16 + x2) * 4 + c,
                                0 <= y2,
                                0 <= x2 < 16,
                                0 <= c < 4,
                                0 <= x < 16,
                                base == 64 * y + 4 * x,
                                y2 < y || (y2 == y && x2 < x),
                        ;
                        assert(rgba@[k] == before[k]);
                    } else {
                        assert(k == base + c);
                    }
                }
            }
            x = x + 1;
        }
        y = y + 1;
    }
    rgba
}

} // verus!
