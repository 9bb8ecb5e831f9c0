//! The tray and window icon: a 32×32 RGBA game-pad picture drawn in code.

use vstd::prelude::*;

verus! {

/// Width and height of the icon in pixels.
pub const ICON_SIZE: u32 = 32;

/// `|v| < r`.
pub open spec fn within(v: int, r: int) -> bool {
    -r < v < r
}

/// The pixel at offset (`cx`, `cy`) from the icon centre lies in the disc of
/// radius 14: its distance to the centre, a square root, is below 14
/// exactly when the squared distance is below 196.
pub open spec fn in_disc(cx: int, cy: int) -> bool {
    cx * cx + cy * cy < 196
}

/// The light-blue parts: the centre bar and the two buttons.
pub open spec fn in_foreground(cx: int, cy: int) -> bool {
    ||| (within(cx, 3) && within(cy, 6))
    ||| (within(cx + 6, 2) && within(cy - 3, 2))
    ||| (within(cx - 6, 2) && within(cy - 3, 2))
}

/// The green parts: the two analog sticks.
pub open spec fn in_accent(cx: int, cy: int) -> bool {
    ||| (within(cx + 5, 3) && within(cy + 3, 3))
    ||| (within(cx - 5, 3) && within(cy + 3, 3))
}

/// Colour of the pixel at column `x`, row `y`: transparent outside the disc,
/// otherwise foreground, accent or the dark background, in that priority.
pub open spec fn pixel(x: int, y: int) -> (u8, u8, u8, u8) {
    let cx = x - 16;
    let cy = y - 16;
    if !in_disc(cx, cy) {
        (0, 0, 0, 0)
    } else if in_foreground(cx, cy) {
        (97, 175, 239, 255)
    } else if in_accent(cx, cy) {
        (152, 195, 121, 255)
    } else {
        (40, 44, 52, 255)
    }
}

/// Byte `i` of the row-major RGBA buffer.
pub open spec fn icon_byte(i: int) -> u8 {
    let p = i / 4;
    let c = pixel(p % 32, p / 32);
    let k = i % 4;
    if k == 0 {
        c.0
    } else if k == 1 {
        c.1
    } else if k == 2 {
        c.2
    } else {
        c.3
    }
}

fn within_exec(v: i32, r: i32) -> (b: bool)
    requires
        r > 0,
    ensures
        b == within(v as int, r as int),
{
    -r < v && v < r
}

/// The icon as 32×32 RGBA bytes, row by row.
pub fn icon_rgba() -> (rgba: Vec<u8>)
    ensures
        rgba@ == Seq::new(4096, |i: int| icon_byte(i)),
{
    let mut rgba: Vec<u8> = Vec::new();
    let mut p: u32 = 0;
    while p < ICON_SIZE * ICON_SIZE
        invariant
            p <= 1024,
            rgba@.len() == 4 * p,
            forall|i: int| 0 <= i < rgba@.len() ==> rgba@[i] == icon_byte(i),
        decreases 1024 - p,
    {
        let x: u32 = p % ICON_SIZE;
        let y: u32 = p / ICON_SIZE;
        assert(x < 32);
        assert(y < 32) by (nonlinear_arith)
            requires
                p < 1024,
                y == p / 32,
        ;
        let cx: i32 = x as i32 - 16;
        let cy: i32 = y as i32 - 16;
        proof {
            assert(0 <= cx * cx <= 256) by (nonlinear_arith)
                requires
                    -16 <= cx <= 16,
            ;
            assert(0 <= cy * cy <= 256) by (nonlinear_arith)
                requires
                    -16 <= cy <= 16,
            ;
        }
        let c: (u8, u8, u8, u8) = if cx * cx + cy * cy < 196 {
            let fg = (within_exec(cx, 3) && within_exec(cy, 6)) || (within_exec(cx + 6, 2) && within_exec(cy - 3, 2))
                || (within_exec(cx - 6, 2) && within_exec(cy - 3, 2));
            let ac = (within_exec(cx + 5, 3) && within_exec(cy + 3, 3)) || (within_exec(cx - 5, 3) && within_exec(cy + 3, 3));
            if fg {
                (97, 175, 239, 255)
            } else if ac {
                (152, 195, 121, 255)
            } else {
                (40, 44, 52, 255)
            }
        } else {
            (0, 0, 0, 0)
        };
        assert(c == pixel(x as int, y as int));
        let ghost base = 4 * p as int;
        proof {
            assert forall|k: int| 0 <= k < 4 implies (#[trigger] ((base + k) / 4)) == p && (base + k) % 4 == k by {
                vstd::arithmetic::div_mod::lemma_fundamental_div_mod_converse(base + k, 4, p as int, k);
            }
            assert((base + 0) / 4 == p && (base + 0) % 4 == 0);
            assert((base + 1) / 4 == p && (base + 1) % 4 == 1);
            assert((base + 2) / 4 == p && (base + 2) % 4 == 2);
            assert((base + 3) / 4 == p && (base + 3) % 4 == 3);
        }
        rgba.push(c.0);
        rgba.push(c.1);
        rgba.push(c.2);
        rgba.push(c.3);
        p = p + 1;
    }
    assert(rgba@ =~= Seq::new(4096, |i: int| icon_byte(i)));
    rgba
}

/// The PNG file that the image crate writes for an RGBA buffer of the given
/// size (`RgbaImage::from_raw` then `write_to` with `ImageFormat::Png`).
pub uninterp spec fn png_of_rgba(width: u32, height: u32, rgba: Seq<u8>) -> Seq<u8>;

/// The eight bytes that open every PNG file.
pub open spec fn png_signature() -> Seq<u8> {
    seq![137u8, 80, 78, 71, 13, 10, 26, 10]
}

/// Encodes an RGBA buffer as PNG with the image crate.  The result is the
/// named encoding of the arguments; it opens with the PNG signature, which
/// the png encoder writes before anything else.  Writing into memory does
/// not fail for a non-empty image whose buffer has the stated size (the png
/// encoder refuses a zero width or height).
#[verifier::external_body]
fn encode_png(width: u32, height: u32, rgba: Vec<u8>) -> (png: Vec<u8>)
    requires
        width > 0,
        height > 0,
        rgba@.len() == 4 * width * height,
    ensures
        png@ == png_of_rgba(width, height, rgba@),
        png@.len() >= 8,
        png@.subrange(0, 8) == png_signature(),
{
    let img = image::RgbaImage::from_raw(width, height, rgba).expect("buffer of the stated size");
    let mut png: Vec<u8> = Vec::new();
    img.write_to(&mut std::io::Cursor::new(&mut png), image::ImageFormat::Png).expect("in-memory write");
    png
}

/// The icon as a PNG file.
pub fn icon_png() -> (png: Vec<u8>)
    ensures
        png@ == png_of_rgba(32, 32, Seq::new(4096, |i: int| icon_byte(i))),
        png@.len() >= 8,
        png@.subrange(0, 8) == png_signature(),
{
    let rgba = icon_rgba();
    encode_png(ICON_SIZE, ICON_SIZE, rgba)
}

/// The header of the `.ico` file: one 32×32, 32-bit entry of 4264 bytes at
/// offset 22, then its bitmap header (height doubled for the mask).
pub open spec fn ico_header() -> Seq<u8> {
    seq![0, 0, 1, 0, 1, 0, 32, 32, 0, 0, 1, 0, 32, 0, 168, 16, 0, 0, 22, 0, 0, 0, 40, 0, 0, 0, 32, 0, 0, 0, 64, 0, 0, 0, 1, 0, 32, 0, 0, 0, 0, 0, 128, 16, 0, 0, 0, 0, 0, 0, 0, 0, 0, 0, 0, 0, 0, 0, 0, 0, 0, 0]
}

/// Byte `j` of the `.ico` pixel data: rows bottom-up, each pixel as blue,
/// green, red, alpha.
pub open spec fn ico_pixel_byte(j: int) -> u8 {
    let p = j / 4;
    let row = 31 - p / 32;
    let x = p % 32;
    let k = j % 4;
    let channel: int = if k == 0 { 2 } else if k == 1 { 1 } else if k == 2 { 0 } else { 3 };
    icon_byte(4 * (row * 32 + x) + channel)
}

/// The icon as a `.ico` file: header, bottom-up BGRA pixels and an all-zero
/// mask (32 rows of 4 bytes) so that the alpha channel applies.
pub open spec fn ico_file() -> Seq<u8> {
    ico_header() + Seq::new(4096, |j: int| ico_pixel_byte(j)) + Seq::new(128, |j: int| 0u8)
}

/// Builds the `.ico` file of the icon.
pub fn icon_ico() -> (ico: Vec<u8>)
    ensures
        ico@ == ico_file(),
{
    let rgba = icon_rgba();
    let header: [u8; 62] = [0, 0, 1, 0, 1, 0, 32, 32, 0, 0, 1, 0, 32, 0, 168, 16, 0, 0, 22, 0, 0, 0, 40, 0, 0, 0, 32, 0, 0, 0, 64, 0, 0, 0, 1, 0, 32, 0, 0, 0, 0, 0, 128, 16, 0, 0, 0, 0, 0, 0, 0, 0, 0, 0, 0, 0, 0, 0, 0, 0, 0, 0];
    let mut out: Vec<u8> = Vec::new();
    let mut h: usize = 0;
    while h < 62
        invariant
            h <= 62,
            header@ == ico_header(),
            out@ =~= ico_header().subrange(0, h as int),
        decreases 62 - h,
    {
        out.push(header[h]);
        h = h + 1;
    }
    let mut q: u32 = 0;
    while q < 1024
        invariant
            q <= 1024,
            rgba@ == Seq::new(4096, |i: int| icon_byte(i)),
            out@.len() == 62 + 4 * q,
            out@.subrange(0, 62) == ico_header(),
            forall|j: int| 0 <= j < 4 * q ==> out@[62 + j] == ico_pixel_byte(j),
        decreases 1024 - q,
    {
        let row: u32 = 31 - q / 32;
        let x: u32 = q % 32;
        assert(q / 32 < 32) by (nonlinear_arith)
            requires
                q < 1024,
        ;
        let idx: usize = ((row * 32 + x) * 4) as usize;
        let ghost base = 4 * q as int;
        proof {
            assert forall|k: int| 0 <= k < 4 implies (#[trigger] ((base + k) / 4)) == q && (base + k) % 4 == k by {
                vstd::arithmetic::div_mod::lemma_fundamental_div_mod_converse(base + k, 4, q as int, k);
            }
            assert((base + 0) / 4 == q && (base + 0) % 4 == 0);
            assert((base + 1) / 4 == q && (base + 1) % 4 == 1);
            assert((base + 2) / 4 == q && (base + 2) % 4 == 2);
            assert((base + 3) / 4 == q && (base + 3) % 4 == 3);
        }
        let ghost prev = out@;
        out.push(rgba[idx + 2]);
        out.push(rgba[idx + 1]);
        out.push(rgba[idx]);
        out.push(rgba[idx + 3]);
        proof {
            assert forall|j: int| 0 <= j < 4 * (q + 1) implies out@[62 + j] == ico_pixel_byte(j) by {
                if j < 4 * q {
                    assert(out@[62 + j] == prev[62 + j]);
                }
            }
            assert(out@.subrange(0, 62) =~= prev.subrange(0, 62));
        }
        q = q + 1;
    }
    let mut m: usize = 0;
    while m < 128
        invariant
            m <= 128,
            out@.len() == 62 + 4096 + m,
            out@.subrange(0, 62) == ico_header(),
            forall|j: int| 0 <= j < 4096 ==> out@[62 + j] == ico_pixel_byte(j),
            forall|j: int| 4158 <= j < 4158 + m ==> out@[j] == 0u8,
        decreases 128 - m,
    {
        out.push(0u8);
        m = m + 1;
    }
    assert(out@ =~= ico_file());
    out
}

/// Every pixel of the icon is either fully transparent or fully opaque.
pub proof fn lemma_icon_alpha_is_binary(i: int)
    requires
        0 <= i < 4096,
        i % 4 == 3,
    ensures
        icon_byte(i) == 0 || icon_byte(i) == 255,
{
}

} // verus!
