//! Colour arithmetic and the default window icon for the tab bar.
use vstd::prelude::*;

verus! {

/// Minimum tab width in pixels
pub const TAB_MIN_WIDTH: u32 = 80;
/// Maximum tab width in pixels
pub const TAB_MAX_WIDTH: u32 = 200;
/// Padding on each side of tab text
pub const TAB_PADDING: u32 = 24;
/// Vertical offset for tab text
pub const TAB_TEXT_OFFSET: i16 = 4;
/// Icon size (width and height)
pub const ICON_SIZE: u32 = 20;
/// Border radius for tab top corners
pub const BEVEL_RADIUS: i16 = 6;

/// A window icon: 20 by 20 pixels, four bytes each in BGRA order, row by row.
pub struct CachedIcon {
    pub pixels: Vec<u8>,
}

/// Byte `k` (0 blue, 1 green, 2 red, 3 alpha) of the default icon's pixel at
/// column `x`, row `y`: a window outline with a title bar, on a transparent
/// margin two pixels wide.
pub open spec fn default_icon_byte(x: int, y: int, k: int) -> u8 {
    if x < 2 || x >= 18 || y < 2 || y >= 18 {
        0x00
    } else if k == 3 {
        0xFF
    } else if x == 2 || x == 17 || y == 2 || y == 17 {
        0x88
    } else if 3 <= y && y <= 5 {
        0xAA
    } else {
        0x3A
    }
}

/// The default icon's bytes are those of `default_icon_byte`.
pub open spec fn is_default_icon(pixels: Seq<u8>) -> bool {
    &&& pixels.len() == 1600
    &&& forall|x: int, y: int, k: int|
        0 <= x < 20 && 0 <= y < 20 && 0 <= k < 4 ==> #[trigger] pixels[(y * 20 + x) * 4 + k]
            == default_icon_byte(x, y, k)
}

/// The icon shown for windows that have none of their own.
pub fn generate_default_icon() -> (r: Vec<u8>)
    ensures
        is_default_icon(r@),
{
    let mut pixels: Vec<u8> = Vec::new();
    let mut y: usize = 0;
    while y < 20
        invariant
            y <= 20,
            pixels@.len() == y * 80,
            forall|px: int, py: int, k: int|
                0 <= px < 20 && 0 <= py < y && 0 <= k < 4 ==> #[trigger] pixels@[(py * 20 + px) * 4
                    + k] == default_icon_byte(px, py, k),
        decreases 20 - y,
    {
        let mut x: usize = 0;
        while x < 20
            invariant
                y < 20,
                x <= 20,
                pixels@.len() == (y * 20 + x) * 4,
                forall|px: int, py: int, k: int|
                    0 <= px < 20 && 0 <= py < y && 0 <= k < 4 ==> #[trigger] pixels@[(py * 20 + px)
                        * 4 + k] == default_icon_byte(px, py, k),
                forall|px: int, k: int|
                    0 <= px < x && 0 <= k < 4 ==> #[trigger] pixels@[(y * 20 + px) * 4 + k]
                        == default_icon_byte(px, y as int, k),
            decreases 20 - x,
        {
            let (b, g, r, a): (u8, u8, u8, u8) = if x < 2 || x >= 18 || y < 2 || y >= 18 {
                (0x00, 0x00, 0x00, 0x00)
            } else if x == 2 || x == 17 || y == 2 || y == 17 {
                (0x88, 0x88, 0x88, 0xFF)
            } else if y >= 3 && y <= 5 {
                (0xAA, 0xAA, 0xAA, 0xFF)
            } else {
                (0x3A, 0x3A, 0x3A, 0xFF)
            };
            let ghost base = (y * 20 + x) * 4;
            pixels.push(b);
            pixels.push(g);
            pixels.push(r);
            pixels.push(a);
            proof {
                assert(pixels@[base] == default_icon_byte(x as int, y as int, 0));
                assert(pixels@[base + 1] == default_icon_byte(x as int, y as int, 1));
                assert(pixels@[base + 2] == default_icon_byte(x as int, y as int, 2));
                assert(pixels@[base + 3] == default_icon_byte(x as int, y as int, 3));
                assert forall|px: int, k: int|
                    0 <= px < x + 1 && 0 <= k < 4 implies #[trigger] pixels@[(y * 20 + px) * 4 + k]
                    == default_icon_byte(px, y as int, k) by {
                    if px == x {
                        assert((y * 20 + px) * 4 + k == base + k);
                    }
                }
            }
            x = x + 1;
        }
        y = y + 1;
    }
    pixels
}

impl CachedIcon {
    /// The icon for windows without one of their own.
    pub fn default_icon() -> (r: Self)
        ensures
            is_default_icon(r.pixels@),
    {
        CachedIcon { pixels: generate_default_icon() }
    }
}

/// Red, green and blue channels of a 0xRRGGBB colour.
pub open spec fn red(c: u32) -> int {
    (c / 0x10000) as int % 0x100
}

pub open spec fn green(c: u32) -> int {
    (c / 0x100) as int % 0x100
}

pub open spec fn blue(c: u32) -> int {
    c as int % 0x100
}

pub open spec fn brighten(channel: int, amount: u8) -> int {
    if channel + amount > 255 {
        255
    } else {
        channel + amount
    }
}

/// Lightens a colour for a bevel highlight: `amount` is added to each of red,
/// green and blue, each stopping at 255.
pub fn lighten_color(color: u32, amount: u8) -> (r: u32)
    ensures
        r == brighten(red(color), amount) * 0x10000 + brighten(green(color), amount) * 0x100
            + brighten(blue(color), amount),
{
    let rc = (color >> 16) & 0xFF;
    let gc = (color >> 8) & 0xFF;
    let bc = color & 0xFF;
    assert(rc == red(color)) by (bit_vector)
        requires
            rc == (color >> 16) & 0xFF,
    ;
    assert(gc == green(color)) by (bit_vector)
        requires
            gc == (color >> 8) & 0xFF,
    ;
    assert(bc == blue(color)) by (bit_vector)
        requires
            bc == color & 0xFF,
    ;
    let r16 = rc as u16 + amount as u16;
    let g16 = gc as u16 + amount as u16;
    let b16 = bc as u16 + amount as u16;
    let r: u32 = if r16 > 255 { 255 } else { r16 as u32 };
    let g: u32 = if g16 > 255 { 255 } else { g16 as u32 };
    let b: u32 = if b16 > 255 { 255 } else { b16 as u32 };
    assert((r << 16) | (g << 8) | b == r * 0x10000 + g * 0x100 + b) by (bit_vector)
        requires
            r <= 255 && g <= 255 && b <= 255,
    ;
    (r << 16) | (g << 8) | b
}

/// One colour channel of a text pixel: the foreground where the glyph is
/// opaque, else the foreground and background mixed by the glyph's
/// coverage `alpha` (out of 255), rounded down.
pub open spec fn glyph_channel_spec(fg: u8, bg: u8, alpha: u32) -> u8 {
    if alpha == 255 {
        fg
    } else {
        ((fg * alpha + bg * (255 - alpha)) / 255) as u8
    }
}

/// Mixes a glyph's foreground into the background by its coverage.
pub fn glyph_channel(fg: u8, bg: u8, alpha: u32) -> (r: u8)
    requires
        alpha <= 255,
    ensures
        r == glyph_channel_spec(fg, bg, alpha),
{
    if alpha == 255 {
        fg
    } else {
        let inv = 255 - alpha;
        assert(fg * alpha + bg * inv <= 255 * 255) by (nonlinear_arith)
            requires
                fg <= 255,
                bg <= 255,
                alpha + inv == 255,
        ;
        ((fg as u32 * alpha + bg as u32 * inv) / 255) as u8
    }
}

/// How a title fits in a given width.
#[derive(Debug, Clone, Copy, PartialEq, Eq, Structural)]
pub enum TextFit {
    /// Show nothing
    Nothing,
    /// Show the whole text
    Whole,
    /// Show this many leading characters followed by "..."
    Prefix(usize),
}

/// How many leading characters, of the given widths, fit in `available`
/// pixels together.
pub open spec fn fitting_prefix(widths: Seq<u32>, available: int) -> nat
    decreases widths.len(),
{
    if widths.len() == 0 || widths[0] > available {
        0
    } else {
        1 + fitting_prefix(widths.drop_first(), available - widths[0])
    }
}

/// How a text of characters `widths` wide (`full_width` in all) fits in
/// `max_width`, with an ellipsis `ellipsis_width` wide when cut.
pub open spec fn fit_text_spec(widths: Seq<u32>, full_width: u32, ellipsis_width: u32, max_width: u32) -> TextFit {
    if widths.len() == 0 || max_width == 0 {
        TextFit::Nothing
    } else if full_width <= max_width {
        TextFit::Whole
    } else if ellipsis_width >= max_width {
        TextFit::Nothing
    } else {
        TextFit::Prefix(fitting_prefix(widths, max_width - ellipsis_width) as usize)
    }
}

/// Decides how a tab title is cut to fit its tab.
pub fn fit_text(widths: &[u32], full_width: u32, ellipsis_width: u32, max_width: u32) -> (r: TextFit)
    ensures
        r == fit_text_spec(widths@, full_width, ellipsis_width, max_width),
{
    if widths.len() == 0 || max_width == 0 {
        return TextFit::Nothing;
    }
    if full_width <= max_width {
        return TextFit::Whole;
    }
    if ellipsis_width >= max_width {
        return TextFit::Nothing;
    }
    let available = max_width - ellipsis_width;
    let mut used: u32 = 0;
    let mut n: usize = 0;
    proof {
        assert(widths@.subrange(0, widths@.len() as int) =~= widths@);
    }
    while n < widths.len()
        invariant
            n <= widths@.len(),
            used <= available,
            fitting_prefix(widths@, available as int) == n + fitting_prefix(
                widths@.subrange(n as int, widths@.len() as int),
                available - used,
            ),
        ensures
            fitting_prefix(widths@, available as int) == n,
        decreases widths@.len() - n,
    {
        let w = widths[n];
        let ghost rest = widths@.subrange(n as int, widths@.len() as int);
        proof {
            assert(rest[0] == w);
            assert(rest.drop_first() =~= widths@.subrange(n + 1, widths@.len() as int));
        }
        if w > available - used {
            break;
        }
        used = used + w;
        n = n + 1;
    }
    TextFit::Prefix(n)
}

/// Byte `k` (red, green, blue, alpha) of the screenshot pixel at (`x`, `y`)
/// from an X11 image of `width` columns whose pixels are `bpp` bytes in
/// blue, green, red (, alpha) order: 0 where the image data is too short,
/// and an alpha of 255 where it has none.
pub open spec fn screenshot_byte(data: Seq<u8>, width: int, bpp: int, x: int, y: int, k: int) -> u8 {
    let off = y * width * bpp + x * bpp;
    if off + 2 < data.len() {
        if k == 0 {
            data[off + 2]
        } else if k == 1 {
            data[off + 1]
        } else if k == 2 {
            data[off]
        } else if bpp == 4 && off + 3 < data.len() {
            data[off + 3]
        } else {
            255
        }
    } else {
        0
    }
}

/// The RGBA pixels of a screenshot, row by row, from the root window's
/// image data; only depths 24 and 32 are read.
pub open spec fn is_screenshot(r: Seq<u8>, data: Seq<u8>, width: int, height: int, depth: u8) -> bool {
    let bpp = if depth == 32 { 4int } else { 3int };
    &&& r.len() == width * height * 4
    &&& forall|x: int, y: int, k: int|
        0 <= x < width && 0 <= y < height && 0 <= k < 4 ==> #[trigger] r[(y * width + x) * 4 + k]
            == screenshot_byte(data, width, bpp, x, y, k)
}

/// Converts the root window's image to RGBA bytes for saving; `None` for a
/// depth other than 24 or 32.
pub fn screenshot_rgba(data: &[u8], width: u16, height: u16, depth: u8) -> (r: Option<Vec<u8>>)
    requires
        width * height * 4 <= usize::MAX,
    ensures
        (depth == 24 || depth == 32) <==> r is Some,
        r matches Some(px) ==> is_screenshot(px@, data@, width as int, height as int, depth),
{
    if depth != 24 && depth != 32 {
        return None;
    }
    let bpp: usize = if depth == 32 { 4 } else { 3 };
    let w = width as usize;
    let h = height as usize;
    let mut out: Vec<u8> = Vec::new();
    let mut y: usize = 0;
    while y < h
        invariant
            w == width,
            h == height,
            bpp == (if depth == 32 { 4int } else { 3int }),
            w * h * 4 <= usize::MAX,
            y <= h,
            out@.len() == y * w * 4,
            forall|px: int, py: int, k: int|
                0 <= px < w && 0 <= py < y && 0 <= k < 4 ==> #[trigger] out@[(py * w + px) * 4 + k]
                    == screenshot_byte(data@, w as int, bpp as int, px, py, k),
        decreases h - y,
    {
        let mut x: usize = 0;
        while x < w
            invariant
                w == width,
                h == height,
                bpp == (if depth == 32 { 4int } else { 3int }),
                w * h * 4 <= usize::MAX,
                y < h,
                x <= w,
                out@.len() == (y * w + x) * 4,
                forall|px: int, py: int, k: int|
                    0 <= px < w && 0 <= py < y && 0 <= k < 4 ==> #[trigger] out@[(py * w + px) * 4
                        + k] == screenshot_byte(data@, w as int, bpp as int, px, py, k),
                forall|px: int, k: int|
                    0 <= px < x && 0 <= k < 4 ==> #[trigger] out@[(y * w + px) * 4 + k]
                        == screenshot_byte(data@, w as int, bpp as int, px, y as int, k),
            decreases w - x,
        {
            assert(y * w * bpp + x * bpp + 3 <= w * h * 4) by (nonlinear_arith)
                requires
                    y < h,
                    x < w,
                    bpp <= 4,
            ;
            let offset = y * w * bpp + x * bpp;
            let (rr, g, b, a): (u8, u8, u8, u8) = if offset + 2 < data.len() {
                let a = if bpp == 4 && offset + 3 < data.len() {
                    data[offset + 3]
                } else {
                    255
                };
                (data[offset + 2], data[offset + 1], data[offset], a)
            } else {
                (0, 0, 0, 0)
            };
            let ghost base = (y * w + x) * 4;
            out.push(rr);
            out.push(g);
            out.push(b);
            out.push(a);
            proof {
                assert(out@[base] == screenshot_byte(data@, w as int, bpp as int, x as int, y as int, 0));
                assert(out@[base + 1] == screenshot_byte(data@, w as int, bpp as int, x as int, y as int, 1));
                assert(out@[base + 2] == screenshot_byte(data@, w as int, bpp as int, x as int, y as int, 2));
                assert(out@[base + 3] == screenshot_byte(data@, w as int, bpp as int, x as int, y as int, 3));
                assert forall|px: int, py: int, k: int|
                    0 <= px < w && 0 <= py < y && 0 <= k < 4 implies #[trigger] out@[(py * w + px) * 4
                    + k] == screenshot_byte(data@, w as int, bpp as int, px, py, k) by {
                    crate::icon::lemma_row_offsets(w as int, x as int, y as int, px, py);
                }
                assert forall|px: int, k: int|
                    0 <= px < x + 1 && 0 <= k < 4 implies #[trigger] out@[(y * w + px) * 4 + k]
                    == screenshot_byte(data@, w as int, bpp as int, px, y as int, k) by {
                    if px == x {
                        assert((y * w + px) * 4 + k == base + k);
                    } else {
                        crate::icon::lemma_row_offsets(w as int, x as int, y as int, px, y as int);
                    }
                }
            }
            x = x + 1;
        }
        assert((y * w + w) * 4 == (y + 1) * w * 4) by (nonlinear_arith);
        y = y + 1;
    }
    assert(h * w * 4 == w * h * 4) by (nonlinear_arith);
    Some(out)
}

} // verus!
