use vstd::prelude::*;

verus! {

/// Width and height of the tray icon, in pixels.
pub const ICON_SIZE: usize = 18;

/// Whether the pixel at column `x`, row `y` belongs to the upward arrow: a
/// triangular head on rows 3 to 8 and a three-pixel-wide shaft on rows 8 to
/// 15, centred on column 9.
pub open spec fn arrow_pixel(x: int, y: int) -> bool {
    let dx = x - 9;
    let adx = if dx < 0 {
        -dx
    } else {
        dx
    };
    (3 <= y <= 8 && adx <= y - 3) || (8 <= y <= 15 && adx <= 1)
}

/// Channel `k` (red, green, blue, alpha) of the pixel at column `x`, row `y`:
/// opaque black on the arrow, transparent black elsewhere.
pub open spec fn icon_channel(x: int, y: int, k: int) -> u8 {
    if k == 3 && arrow_pixel(x, y) {
        255
    } else {
        0
    }
}

fn in_arrow(x: usize, y: usize) -> (b: bool)
    requires
        x < 18,
        y < 18,
    ensures
        b == arrow_pixel(x as int, y as int),
{
    let dx: i32 = x as i32 - 9;
    let adx: i32 = if dx < 0 {
        -dx
    } else {
        dx
    };
    let yi = y as i32;
    (3 <= yi && yi <= 8 && adx <= yi - 3) || (8 <= yi && yi <= 15 && adx <= 1)
}

/// The tray icon's pixels, row by row, four bytes (RGBA) each.
pub fn icon_rgba() -> (v: Vec<u8>)
    ensures
        v.len() == 18 * 18 * 4,
        forall|x: int, y: int, k: int|
            0 <= x < 18 && 0 <= y < 18 && 0 <= k < 4 ==> v[(y * 18 + x) * 4 + k] == icon_channel(
                x,
                y,
                k,
            ),
{
    let mut v: Vec<u8> = Vec::new();
    let mut y: usize = 0;
    while y < 18
        invariant
            y <= 18,
            v.len() == y * 18 * 4,
            forall|x2: int, y2: int, k: int|
                0 <= x2 < 18 && 0 <= y2 < y && 0 <= k < 4 ==> v[(y2 * 18 + x2) * 4 + k]
                    == icon_channel(x2, y2, k),
        decreases 18 - y,
    {
        let mut x: usize = 0;
        while x < 18
            invariant
                y < 18,
                x <= 18,
                v.len() == (y * 18 + x) * 4,
                forall|x2: int, y2: int, k: int|
                    0 <= x2 < 18 && 0 <= y2 < 18 && 0 <= k < 4 && y2 * 18 + x2 < y * 18 + x
                        ==> v[(y2 * 18 + x2) * 4 + k] == icon_channel(x2, y2, k),
            decreases 18 - x,
        {
            let alpha: u8 = if in_arrow(x, y) {
                255
            } else {
                0
            };
            v.push(0);
            v.push(0);
            v.push(0);
            v.push(alpha);
            assert forall|x2: int, y2: int, k: int|
                0 <= x2 < 18 && 0 <= y2 < 18 && 0 <= k < 4 && y2 * 18 + x2 < y * 18 + x + 1
                    implies v[(y2 * 18 + x2) * 4 + k] == icon_channel(x2, y2, k) by {
                if y2 * 18 + x2 == y * 18 + x {
                    assert(y2 == y && x2 == x) by (nonlinear_arith)
                        requires
                            y2 * 18 + x2 == y * 18 + x,
                            0 <= x2 < 18,
                            0 <= x < 18,
                            0 <= y2,
                            0 <= y,
                    ;
                }
            }
            x = x + 1;
        }
        y = y + 1;
    }
    v
}

} // verus!
