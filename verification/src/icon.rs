//! The menu bar icon: a 22×22 template image of a framed "C" and a slash.
use vstd::prelude::*;

verus! {

/// The width and height of the icon, in pixels.
pub const ICON_SIZE: u32 = 22;

/// The pixel at column `x`, row `y` is drawn: it lies on the frame, on the
/// "C" or on the slash.
pub open spec fn icon_pixel_on(x: int, y: int) -> bool {
    let border = x == 2 || x == 19 || y == 2 || y == 19;
    let c = ((x == 6 || y == 6 || y == 15) && 6 <= x <= 11) || (x == 6 && 6 <= y <= 15);
    let slash = 13 <= x <= 17 && (x + y == 22 || x == y - 1);
    2 <= x < 20 && 2 <= y < 20 && (border || c || slash)
}

/// Byte `i` of the icon's RGBA pixels, row by row: drawn pixels are opaque
/// black, the others transparent.
pub open spec fn icon_byte(i: int) -> u8 {
    if i % 4 == 3 && icon_pixel_on((i / 4) % 22, (i / 4) / 22) {
        255
    } else {
        0
    }
}

fn pixel_on(x: u32, y: u32) -> (on: bool)
    ensures
        on == icon_pixel_on(x as int, y as int),
{
    let border = x == 2 || x == 19 || y == 2 || y == 19;
    let c = ((x == 6 || y == 6 || y == 15) && 6 <= x && x <= 11) || (x == 6 && 6 <= y && y <= 15);
    let slash = 13 <= x && x <= 17 && (x as u64 + y as u64 == 22 || x as u64 + 1 == y as u64);
    2 <= x && x < 20 && 2 <= y && y < 20 && (border || c || slash)
}

/// The RGBA pixels of the menu bar icon.
pub fn menu_icon_rgba() -> (rgba: Vec<u8>)
    ensures
        rgba@.len() == ICON_SIZE * ICON_SIZE * 4,
        forall|i: int| 0 <= i < rgba@.len() ==> #[trigger] rgba@[i] == icon_byte(i),
{
    let pixels: u32 = ICON_SIZE * ICON_SIZE;
    let mut rgba: Vec<u8> = Vec::with_capacity(1936);
    let mut p: u32 = 0;
    while p < pixels
        invariant
            pixels == 484,
            p <= pixels,
            rgba@.len() == 4 * p,
            forall|i: int| 0 <= i < rgba@.len() ==> #[trigger] rgba@[i] == icon_byte(i),
        decreases pixels - p,
    {
        let alpha: u8 = if pixel_on(p % ICON_SIZE, p / ICON_SIZE) {
            255
        } else {
            0
        };
        let ghost base = 4 * p as int;
        let ghost before = rgba@;
        rgba.push(0);
        rgba.push(0);
        rgba.push(0);
        rgba.push(alpha);
        proof {
            assert(base / 4 == p as int && base % 4 == 0);
            assert((base + 1) / 4 == p as int && (base + 1) % 4 == 1);
            assert((base + 2) / 4 == p as int && (base + 2) % 4 == 2);
            assert((base + 3) / 4 == p as int && (base + 3) % 4 == 3);
            assert forall|i: int| 0 <= i < rgba@.len() implies #[trigger] rgba@[i] == icon_byte(i) by {
                if i < base {
                    assert(rgba@[i] == before[i]);
                }
            }
        }
        p = p + 1;
    }
    rgba
}

} // verus!
