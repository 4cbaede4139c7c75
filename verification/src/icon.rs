//! Window icons: choosing among the sizes a window offers in its
//! `_NET_WM_ICON` property, and scaling the chosen one for a tab.
use vstd::prelude::*;

verus! {

/// How far an icon of `size` is from the wanted size; growing an icon counts
/// twice as much as shrinking one.
pub open spec fn size_distance(size: u32, target: u32) -> int {
    if size >= target {
        size - target
    } else {
        (target - size) * 2
    }
}

pub open spec fn max_u32(a: u32, b: u32) -> u32 {
    if a >= b {
        a
    } else {
        b
    }
}

/// The icon chosen among the entries of `data` from position `idx` on, given
/// the best one so far and its distance. Each entry is a width, a height and
/// that many pixels; the scan stops at an empty entry or one that runs past
/// the end. An entry replaces the best so far when it is closer, or as close
/// and at least as wide as the wanted size. The result is (width, height,
/// position of the first pixel).
pub open spec fn pick_icon(data: Seq<u32>, target: u32, idx: int, best: Option<(u32, u32, int)>, best_diff: int) -> Option<(u32, u32, int)>
    decreases data.len() - idx,
{
    if idx < 0 || idx + 2 >= data.len() {
        best
    } else {
        let w = data[idx];
        let h = data[idx + 1];
        if w == 0 || h == 0 || idx + 2 + w * h > data.len() {
            best
        } else {
            let diff = size_distance(max_u32(w, h), target);
            if diff < best_diff || (diff == best_diff && w >= target) {
                pick_icon(data, target, idx + 2 + w * h, Some((w, h, idx + 2)), diff)
            } else {
                pick_icon(data, target, idx + 2 + w * h, best, best_diff)
            }
        }
    }
}

/// The icon of `_NET_WM_ICON` data to show at `target` pixels, if any:
/// there must be at least three values to hold one.
pub open spec fn select_icon_spec(data: Seq<u32>, target: u32) -> Option<(u32, u32, int)> {
    if data.len() < 3 {
        None
    } else {
        pick_icon(data, target, 0, None, u32::MAX as int)
    }
}

/// Chooses, among the icons of a `_NET_WM_ICON` property, the one to show at
/// `target` pixels: (width, height, index of its first pixel in `data`).
pub fn select_icon(data: &[u32], target: u32) -> (r: Option<(u32, u32, usize)>)
    requires
        data@.len() < 0x1_0000_0000,
        target <= 0x7fff_ffff,
    ensures
        match select_icon_spec(data@, target) {
            Some(b) => r == Some((b.0, b.1, b.2 as usize)),
            None => r is None,
        },
{
    if data.len() < 3 {
        return None;
    }
    let mut best: Option<(u32, u32, usize)> = None;
    let mut best_diff: u32 = u32::MAX;
    let mut idx: usize = 0;
    let len = data.len();
    while idx < len && len - idx > 2
        invariant
            len == data@.len(),
            len < 0x1_0000_0000,
            target <= 0x7fff_ffff,
            idx <= len,
            select_icon_spec(data@, target) == pick_icon(
                data@,
                target,
                idx as int,
                match best {
                    Some(b) => Some((b.0, b.1, b.2 as int)),
                    None => None,
                },
                best_diff as int,
            ),
            best matches Some(b) ==> b.2 < len,
        ensures
            match select_icon_spec(data@, target) {
                Some(b) => best == Some((b.0, b.1, b.2 as usize)),
                None => best is None,
            },
        decreases len - idx,
    {
        let w = data[idx];
        let h = data[idx + 1];
        assert(w * h <= 0xffff_ffff * 0xffff_ffff) by (nonlinear_arith)
            requires
                w <= 0xffff_ffff,
                h <= 0xffff_ffff,
        ;
        let count = w as u64 * h as u64;
        if w == 0 || h == 0 || idx as u64 + 2 + count > len as u64 {
            break;
        }
        let size = if w >= h {
            w
        } else {
            h
        };
        let diff = if size >= target {
            size - target
        } else {
            (target - size) * 2
        };
        let next = idx + 2 + count as usize;
        if diff < best_diff || (diff == best_diff && w >= target) {
            best_diff = diff;
            best = Some((w, h, idx + 2));
        }
        idx = next;
    }
    best
}

/// Byte `k` (0 blue, 1 green, 2 red, 3 alpha) of the 0xAARRGGBB pixel `p`.
pub open spec fn bgra_byte(p: u32, k: int) -> u8 {
    if k == 0 {
        (p % 0x100) as u8
    } else if k == 1 {
        ((p / 0x100) % 0x100) as u8
    } else if k == 2 {
        ((p / 0x10000) % 0x100) as u8
    } else {
        (p / 0x1000000) as u8
    }
}

pub open spec fn min_int(a: int, b: int) -> int {
    if a <= b {
        a
    } else {
        b
    }
}

/// The source pixel shown at (`x`, `y`) of an icon scaled from `sw` by `sh`
/// to `d` by `d` pixels: the nearest one, in row-major order.
pub open spec fn source_index(sw: u32, sh: u32, d: u32, x: int, y: int) -> int {
    let sx = min_int(x * sw / (d as int), sw - 1);
    let sy = min_int(y * sh / (d as int), sh - 1);
    sy * sw + sx
}

/// Byte `k` of the scaled icon's pixel at (`x`, `y`): that of the source
/// pixel in BGRA order, or 0 where the source is too short.
pub open spec fn scaled_byte(src: Seq<u32>, sw: u32, sh: u32, d: u32, x: int, y: int, k: int) -> u8 {
    let i = source_index(sw, sh, d, x, y);
    if i < src.len() {
        bgra_byte(src[i], k)
    } else {
        0
    }
}

/// The scaled icon's bytes are those of `scaled_byte`.
pub open spec fn is_scaled(dst: Seq<u8>, src: Seq<u32>, sw: u32, sh: u32, d: u32) -> bool {
    &&& dst.len() == d * d * 4
    &&& forall|x: int, y: int, k: int|
        0 <= x < d && 0 <= y < d && 0 <= k < 4 ==> #[trigger] dst[(y * d + x) * 4 + k]
            == scaled_byte(src, sw, sh, d, x, y, k)
}

pub(crate) proof fn lemma_row_offsets(d: int, x: int, y: int, px: int, py: int)
    requires
        0 <= px < d,
        0 <= x <= d,
        0 <= py,
        0 <= y,
        py < y || (py == y && px < x),
    ensures
        py * d + px < y * d + x,
{
    if py < y {
        assert(py * d + d <= y * d) by (nonlinear_arith)
            requires
                py < y,
                d >= 0,
        ;
    }
}

/// Scales an icon of 0xAARRGGBB pixels to `d` by `d` pixels, nearest
/// neighbour, as BGRA bytes.
pub fn scale_icon(src: &[u32], sw: u32, sh: u32, d: u32) -> (r: Vec<u8>)
    requires
        sw > 0,
        sh > 0,
        d * d * 4 <= u32::MAX,
        d * sw <= u32::MAX,
        d * sh <= u32::MAX,
        sh * sw <= u32::MAX,
    ensures
        is_scaled(r@, src@, sw, sh, d),
{
    let mut dst: Vec<u8> = Vec::new();
    let mut y: u32 = 0;
    while y < d
        invariant
            sw > 0,
            sh > 0,
            d * sw <= u32::MAX,
            d * sh <= u32::MAX,
            sh * sw <= u32::MAX,
            y <= d,
            dst@.len() == y * d * 4,
            forall|px: int, py: int, k: int|
                0 <= px < d && 0 <= py < y && 0 <= k < 4 ==> #[trigger] dst@[(py * d + px) * 4 + k]
                    == scaled_byte(src@, sw, sh, d, px, py, k),
        decreases d - y,
    {
        let mut x: u32 = 0;
        while x < d
            invariant
                sw > 0,
                sh > 0,
                d * sw <= u32::MAX,
                d * sh <= u32::MAX,
                sh * sw <= u32::MAX,
                y < d,
                x <= d,
                dst@.len() == (y * d + x) * 4,
                forall|px: int, py: int, k: int|
                    0 <= px < d && 0 <= py < y && 0 <= k < 4 ==> #[trigger] dst@[(py * d + px) * 4
                        + k] == scaled_byte(src@, sw, sh, d, px, py, k),
                forall|px: int, k: int|
                    0 <= px < x && 0 <= k < 4 ==> #[trigger] dst@[(y * d + px) * 4 + k]
                        == scaled_byte(src@, sw, sh, d, px, y as int, k),
            decreases d - x,
        {
            assert(x * sw <= d * sw && y * sh <= d * sh) by (nonlinear_arith)
                requires
                    x < d,
                    y < d,
            ;
            let qx = x * sw / d;
            let qy = y * sh / d;
            let src_x = if qx < sw - 1 { qx } else { sw - 1 };
            let src_y = if qy < sh - 1 { qy } else { sh - 1 };
            assert(src_y * sw + src_x <= sh * sw) by (nonlinear_arith)
                requires
                    src_y <= sh - 1,
                    src_x <= sw - 1,
                    sw > 0,
            ;
            let src_idx = src_y as usize * sw as usize + src_x as usize;
            let ghost i = source_index(sw, sh, d, x as int, y as int);
            assert(src_idx == i);
            let (b, g, rr, a): (u8, u8, u8, u8) = if src_idx < src.len() {
                let pixel = src[src_idx];
                let a = ((pixel >> 24) & 0xFF) as u8;
                let rr = ((pixel >> 16) & 0xFF) as u8;
                let g = ((pixel >> 8) & 0xFF) as u8;
                let b = (pixel & 0xFF) as u8;
                assert((pixel >> 24) & 0xFF == pixel / 0x1000000 && (pixel >> 16) & 0xFF == (pixel
                    / 0x10000) % 0x100 && (pixel >> 8) & 0xFF == (pixel / 0x100) % 0x100 && pixel
                    & 0xFF == pixel % 0x100) by (bit_vector);
                (b, g, rr, a)
            } else {
                (0, 0, 0, 0)
            };
            let ghost base = (y * d + x) * 4;
            dst.push(b);
            dst.push(g);
            dst.push(rr);
            dst.push(a);
            proof {
                assert(dst@[base] == scaled_byte(src@, sw, sh, d, x as int, y as int, 0));
                assert(dst@[base + 1] == scaled_byte(src@, sw, sh, d, x as int, y as int, 1));
                assert(dst@[base + 2] == scaled_byte(src@, sw, sh, d, x as int, y as int, 2));
                assert(dst@[base + 3] == scaled_byte(src@, sw, sh, d, x as int, y as int, 3));
                assert forall|px: int, py: int, k: int|
                    0 <= px < d && 0 <= py < y && 0 <= k < 4 implies #[trigger] dst@[(py * d + px) * 4
                    + k] == scaled_byte(src@, sw, sh, d, px, py, k) by {
                    lemma_row_offsets(d as int, x as int, y as int, px, py);
                }
                assert forall|px: int, k: int|
                    0 <= px < x + 1 && 0 <= k < 4 implies #[trigger] dst@[(y * d + px) * 4 + k]
                    == scaled_byte(src@, sw, sh, d, px, y as int, k) by {
                    if px == x {
                        assert((y * d + px) * 4 + k == base + k);
                    } else {
                        lemma_row_offsets(d as int, x as int, y as int, px, y as int);
                    }
                }
            }
            x = x + 1;
        }
        assert((y * d + d) * 4 == (y + 1) * d * 4) by (nonlinear_arith);
        y = y + 1;
    }
    assert(d * d * 4 == y * d * 4);
    dst
}

} // verus!
