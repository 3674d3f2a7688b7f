//! Just enough DDS to draw Zero-K's zoom-out unit icons.
//!
//! Those icons are DXT1, DXT3, DXT5 or uncompressed 32-bit, and no browser
//! displays DDS, so this decodes them to raw RGBA for a canvas. Only what those
//! files actually are is implemented: anything else is `None`, and the caller
//! draws the plain marker, because a wrong guess at a pixel format is a smear
//! rather than an error.
use crate::codec::{base64_standard, spec_base64_standard};
use vstd::prelude::*;

verus! {

/// A decoded image, ready for `putImageData`.
pub struct Rgba {
    pub width: u32,
    pub height: u32,
    /// `width * height * 4` bytes, base64 in the standard alphabet.
    pub pixels: String,
}

pub const HEADER: usize = 128;

/// The largest side accepted. The cap is what stops a bad header allocating.
pub const MAX_SIDE: u32 = 4096;

/// The block-compressed formats read here.
#[derive(PartialEq, Eq, Structural, Clone, Copy)]
pub enum Dxt {
    One,
    Three,
    Five,
}

// -------------------------------------------------------------- specs ---

/// Four bytes at `at`, little-endian.
pub open spec fn le_u32_value(b: Seq<u8>, at: int) -> int {
    b[at] + 256 * b[at + 1] + 65536 * b[at + 2] + 16777216 * b[at + 3]
}

/// The three 8-bit channels of an RGB565 colour, the high bits of each
/// channel replicated into its low ones so that full scale stays full scale.
pub open spec fn channel565(v: int, ch: int) -> int {
    let r = (v / 2048) % 32;
    let g = (v / 32) % 64;
    let b = v % 32;
    if ch == 0 {
        r * 8 + r / 4
    } else if ch == 1 {
        g * 4 + g / 16
    } else {
        b * 8 + b / 4
    }
}

/// Byte `ch` of palette entry `e` of a DXT colour block.
///
/// `punchthrough` is DXT1's one-bit alpha mode: when `c0 <= c1` the third
/// entry is the midpoint and the fourth is transparent black. DXT3 and DXT5
/// always use the four-colour form.
pub open spec fn palette_byte(c: Seq<u8>, punchthrough: bool, e: int, ch: int) -> int {
    let c0 = c[0] + 256 * c[1];
    let c1 = c[2] + 256 * c[3];
    let four = !punchthrough || c0 > c1;
    if ch == 3 {
        if e == 3 && !four {
            0
        } else {
            255
        }
    } else {
        let a = channel565(c0, ch);
        let b = channel565(c1, ch);
        if e == 0 {
            a
        } else if e == 1 {
            b
        } else if four {
            if e == 2 {
                (a * 2 + b) / 3
            } else {
                (a + b * 2) / 3
            }
        } else if e == 2 {
            (a + b) / 2
        } else {
            0
        }
    }
}

/// Digit `t` of `v` written in base `base`, least significant first.
pub open spec fn digit(v: nat, base: nat, t: nat) -> nat
    decreases t,
{
    if base == 0 {
        0
    } else if t == 0 {
        v % base
    } else {
        digit(v / base, base, (t - 1) as nat)
    }
}

/// `v` with its lowest `n` base-`base` digits removed.
pub open spec fn drop_digits(v: nat, base: nat, n: nat) -> nat
    decreases n,
{
    if n == 0 || base == 0 {
        v
    } else {
        drop_digits(v / base, base, (n - 1) as nat)
    }
}

proof fn lemma_digit_drop(v: nat, base: nat, n: nat)
    requires
        base > 0,
    ensures
        digit(v, base, n) == drop_digits(v, base, n) % base,
        drop_digits(v, base, n + 1) == drop_digits(v, base, n) / base,
    decreases n,
{
    if n > 0 {
        lemma_digit_drop(v / base, base, (n - 1) as nat);
        assert((n + 1) as nat - 1 == n);
    } else {
        assert(drop_digits(v, base, 1) == drop_digits(v / base, base, 0));
    }
}

/// DXT3's alpha for texel `t`: four bits a texel, low nibble first.
pub open spec fn dxt3_alpha(blk: Seq<u8>, t: int) -> int {
    let byte = blk[t / 2];
    (if t % 2 == 0 {
        byte % 16
    } else {
        byte / 16
    }) * 17
}

/// Entry `j` of DXT5's interpolated alpha table.
pub open spec fn dxt5_lut(a0: int, a1: int, j: int) -> int {
    if j == 0 {
        a0
    } else if j == 1 {
        a1
    } else if a0 > a1 {
        ((8 - j) * a0 + (j - 1) * a1) / 7
    } else if j < 6 {
        ((6 - j) * a0 + (j - 1) * a1) / 5
    } else if j == 6 {
        0
    } else {
        255
    }
}

/// DXT5's six bytes of three-bit indices, as one little-endian number.
pub open spec fn dxt5_bits(blk: Seq<u8>) -> nat {
    (blk[2] + 256 * blk[3] + 65536 * blk[4] + 16777216 * blk[5] + 4294967296 * blk[6]
        + 1099511627776 * blk[7]) as nat
}

pub open spec fn dxt5_alpha(blk: Seq<u8>, t: int) -> int {
    dxt5_lut(blk[0] as int, blk[1] as int, digit(dxt5_bits(blk), 8, t as nat) as int)
}

pub open spec fn block_bytes(kind: Dxt) -> int {
    if kind == Dxt::One {
        8
    } else {
        16
    }
}

/// Blocks across an image `w` wide: four pixels a block, rounding up.
pub open spec fn blocks_across(w: int) -> int {
    (w + 3) / 4
}

/// Byte `ch` of pixel (`px`, `py`) of a block-compressed image.
pub open spec fn texel_byte(body: Seq<u8>, kind: Dxt, w: int, px: int, py: int, ch: int) -> int {
    let bb = block_bytes(kind);
    let k = (py / 4) * blocks_across(w) + px / 4;
    let blk = body.subrange(k * bb, k * bb + bb);
    let colour = if kind == Dxt::One {
        blk
    } else {
        blk.subrange(8, 16)
    };
    let t = (py % 4) * 4 + px % 4;
    let idx = digit(le_u32_value(colour, 4) as nat, 4, t as nat) as int;
    let base = palette_byte(colour, kind == Dxt::One, idx, ch);
    if ch == 3 {
        let alpha = if kind == Dxt::One {
            255
        } else if kind == Dxt::Three {
            dxt3_alpha(blk, t)
        } else {
            dxt5_alpha(blk, t)
        };
        base * alpha / 255
    } else {
        base
    }
}

pub open spec fn block_image(body: Seq<u8>, kind: Dxt, w: int, h: int) -> Seq<u8> {
    Seq::new(
        (w * h * 4) as nat,
        |i: int| texel_byte(body, kind, w, (i / 4) % w, (i / 4) / w, i % 4) as u8,
    )
}

/// Spring writes uncompressed DDS as BGRA.
pub open spec fn bgra_image(body: Seq<u8>, w: int, h: int) -> Seq<u8> {
    Seq::new(
        (w * h * 4) as nat,
        |i: int|
            {
                let c = i % 4;
                let from = if c == 0 {
                    2
                } else if c == 2 {
                    0
                } else {
                    c
                };
                body[4 * (i / 4) + from]
            },
    )
}

pub open spec fn spec_kind(b: Seq<u8>) -> Option<Dxt> {
    if b[84] == 68 && b[85] == 88 && b[86] == 84 && b[87] == 49 {
        Some(Dxt::One)
    } else if b[84] == 68 && b[85] == 88 && b[86] == 84 && b[87] == 51 {
        Some(Dxt::Three)
    } else if b[84] == 68 && b[85] == 88 && b[86] == 84 && b[87] == 53 {
        Some(Dxt::Five)
    } else {
        None
    }
}

/// What [`decode`] makes of a file: its width, height and RGBA bytes, or
/// `None` for anything that is not a DDS of a kind read here, or that holds
/// less than its header promises.
pub open spec fn spec_decode(b: Seq<u8>) -> Option<(int, int, Seq<u8>)> {
    if !(b.len() >= 128 && b[0] == 68 && b[1] == 68 && b[2] == 83 && b[3] == 32) {
        None
    } else {
        let h = le_u32_value(b, 12);
        let w = le_u32_value(b, 16);
        let body = b.skip(128);
        if w == 0 || h == 0 || w > 4096 || h > 4096 {
            None
        } else {
            match spec_kind(b) {
                None => {
                    if le_u32_value(b, 88) != 32 || body.len() < w * h * 4 {
                        None
                    } else {
                        Some((w, h, bgra_image(body, w, h)))
                    }
                },
                Some(kind) => {
                    let blocks = blocks_across(w) * blocks_across(h);
                    if body.len() < blocks * block_bytes(kind) {
                        None
                    } else {
                        Some((w, h, block_image(body, kind, w, h)))
                    }
                },
            }
        }
    }
}

// ----------------------------------------------------------- helpers ---

fn le_u32(b: &[u8], at: usize) -> (r: u32)
    requires
        at + 4 <= b@.len(),
    ensures
        r == le_u32_value(b@, at as int),
{
    b[at] as u32 + 256 * b[at + 1] as u32 + 65536 * b[at + 2] as u32 + 16777216 * b[at + 3] as u32
}

/// Channel `ch` (red, green, blue) of an RGB565 colour, widened to eight
/// bits with its high bits replicated into the low ones, so that full scale
/// stays full scale: 0x1F becomes 0xFF, not 0xF8.
fn rgb565(v: u32, ch: usize) -> (r: u8)
    requires
        v < 65536,
        ch < 3,
    ensures
        r == channel565(v as int, ch as int),
{
    if ch == 0 {
        let r = (v / 2048) % 32;
        (r * 8 + r / 4) as u8
    } else if ch == 1 {
        let g = (v / 32) % 64;
        (g * 4 + g / 16) as u8
    } else {
        let b = v % 32;
        (b * 8 + b / 4) as u8
    }
}

/// The four colours a DXT block interpolates between, entry-major.
fn palette(block: &[u8], punchthrough: bool) -> (out: [u8; 16])
    requires
        block@.len() >= 4,
    ensures
        forall|e: int, ch: int|
            0 <= e < 4 && 0 <= ch < 4 ==> #[trigger] out@[e * 4 + ch] == palette_byte(
                block@,
                punchthrough,
                e,
                ch,
            ),
{
    let c0 = block[0] as u32 + 256 * block[1] as u32;
    let c1 = block[2] as u32 + 256 * block[3] as u32;
    let four = !punchthrough || c0 > c1;
    let mut out: [u8; 16] = [0; 16];
    let mut ch: usize = 0;
    while ch < 3
        invariant
            ch <= 3,
            c0 == block@[0] + 256 * block@[1],
            c1 == block@[2] + 256 * block@[3],
            four == (!punchthrough || c0 > c1),
            block@.len() >= 4,
            forall|e: int, k: int|
                0 <= e < 4 && 0 <= k < ch ==> #[trigger] out@[e * 4 + k] == palette_byte(
                    block@,
                    punchthrough,
                    e,
                    k,
                ),
        decreases 3 - ch,
    {
        let a = rgb565(c0, ch) as u16;
        let b = rgb565(c1, ch) as u16;
        out[ch] = a as u8;
        out[4 + ch] = b as u8;
        if four {
            out[8 + ch] = ((a * 2 + b) / 3) as u8;
            out[12 + ch] = ((a + b * 2) / 3) as u8;
        } else {
            out[8 + ch] = ((a + b) / 2) as u8;
            out[12 + ch] = 0;
        }
        ch = ch + 1;
        assert forall|e: int, k: int| 0 <= e < 4 && 0 <= k < ch implies #[trigger] out@[e * 4 + k]
            == palette_byte(block@, punchthrough, e, k) by {
            assert(e * 4 + k == e * 4 + k);
        }
    }
    out[3] = 255;
    out[7] = 255;
    out[11] = 255;
    out[15] = if four {
        255
    } else {
        0
    };
    out
}

/// Sixteen alpha values for a block: all opaque for DXT1, DXT3's nibbles,
/// or DXT5's interpolated table.
fn block_alpha(blk: &[u8], kind: Dxt) -> (out: [u8; 16])
    requires
        blk@.len() == block_bytes(kind),
    ensures
        forall|t: int|
            0 <= t < 16 ==> #[trigger] out@[t] == if kind == Dxt::One {
                255
            } else if kind == Dxt::Three {
                dxt3_alpha(blk@, t)
            } else {
                dxt5_alpha(blk@, t)
            },
{
    let mut out: [u8; 16] = [255; 16];
    if kind == Dxt::One {
        return out;
    }
    if kind == Dxt::Three {
        let mut i: usize = 0;
        while i < 16
            invariant
                i <= 16,
                blk@.len() == 16,
                forall|t: int| 0 <= t < i ==> #[trigger] out@[t] == dxt3_alpha(blk@, t),
            decreases 16 - i,
        {
            let nibble = if i % 2 == 0 {
                blk[i / 2] % 16
            } else {
                blk[i / 2] / 16
            };
            out[i] = nibble * 17;
            i = i + 1;
        }
        return out;
    }
    let a0 = blk[0] as u32;
    let a1 = blk[1] as u32;
    let mut lut: [u8; 8] = [0; 8];
    let mut j: usize = 0;
    while j < 8
        invariant
            j <= 8,
            a0 == blk@[0],
            a1 == blk@[1],
            a0 < 256,
            a1 < 256,
            forall|k: int| 0 <= k < j ==> #[trigger] lut@[k] == dxt5_lut(a0 as int, a1 as int, k),
        decreases 8 - j,
    {
        let jj = j as u32;
        proof {
            let k = j as int;
            if 2 <= k < 8 {
                assert((8 - k) * a0 <= 8 * 255 && (k - 1) * a1 <= 8 * 255 && (6 - k) * a0 <= 8 * 255)
                    by (nonlinear_arith)
                    requires 2 <= k < 8, 0 <= a0 < 256, 0 <= a1 < 256;
            }
        }
        lut[j] = if j == 0 {
            a0 as u8
        } else if j == 1 {
            a1 as u8
        } else if a0 > a1 {
            (((8 - jj) * a0 + (jj - 1) * a1) / 7) as u8
        } else if j < 6 {
            (((6 - jj) * a0 + (jj - 1) * a1) / 5) as u8
        } else if j == 6 {
            0
        } else {
            255
        };
        proof {
            let k = j as int;
            if k >= 2 && a0 > a1 {
                assert(((8 - k) * a0 + (k - 1) * a1) / 7 < 256) by (nonlinear_arith)
                    requires 2 <= k < 8, 0 <= a1 < a0 < 256;
            } else if 2 <= k < 6 {
                assert(((6 - k) * a0 + (k - 1) * a1) / 5 < 256) by (nonlinear_arith)
                    requires 2 <= k < 6, 0 <= a0 <= a1 < 256;
            }
        }
        j = j + 1;
    }
    let bits: u64 = blk[2] as u64 + 256 * blk[3] as u64 + 65536 * blk[4] as u64 + 16777216
        * blk[5] as u64 + 4294967296 * blk[6] as u64 + 1099511627776 * blk[7] as u64;
    let mut rest = bits;
    let mut i: usize = 0;
    while i < 16
        invariant
            i <= 16,
            blk@.len() == 16,
            kind == Dxt::Five,
            bits as nat == dxt5_bits(blk@),
            forall|k: int| 0 <= k < 8 ==> #[trigger] lut@[k] == dxt5_lut(blk@[0] as int, blk@[1] as int, k),
            rest as nat == drop_digits(bits as nat, 8, i as nat),
            forall|t: int| 0 <= t < i ==> #[trigger] out@[t] == dxt5_alpha(blk@, t),
        decreases 16 - i,
    {
        proof {
            lemma_digit_drop(bits as nat, 8, i as nat);
        }
        out[i] = lut[(rest % 8) as usize];
        rest = rest / 8;
        i = i + 1;
    }
    out
}

/// The pixel (`px`, `py`) colour byte `c` lives at this index.
pub open spec fn pix(w: int, px: int, py: int, c: int) -> int {
    (py * w + px) * 4 + c
}

proof fn lemma_pix_bounds(w: int, h: int, px: int, py: int, c: int)
    requires
        0 <= px < w,
        0 <= py < h,
        0 <= c < 4,
    ensures
        0 <= pix(w, px, py, c) < w * h * 4,
{
    assert(0 <= pix(w, px, py, c) < w * h * 4) by (nonlinear_arith)
        requires 0 <= px < w, 0 <= py < h, 0 <= c < 4;
}

proof fn lemma_pix_injective(w: int, px: int, py: int, c: int, qx: int, qy: int, d: int)
    requires
        0 <= px < w,
        0 <= qx < w,
        0 <= py,
        0 <= qy,
        0 <= c < 4,
        0 <= d < 4,
        pix(w, px, py, c) == pix(w, qx, qy, d),
    ensures
        px == qx && py == qy && c == d,
{
    let p = py * w + px;
    let q = qy * w + qx;
    assert(p == q && c == d) by (nonlinear_arith)
        requires p * 4 + c == q * 4 + d, 0 <= c < 4, 0 <= d < 4;
    assert(py == qy) by (nonlinear_arith)
        requires py * w + px == qy * w + qx, 0 <= px < w, 0 <= qx < w, 0 <= py, 0 <= qy;
}

/// The value of byte `c` of block texel `t`, from a block's palette, colour
/// indices and alpha.
pub open spec fn block_value(colours: Seq<u8>, indices: nat, alpha: Seq<u8>, t: int, c: int) -> int {
    let q = digit(indices, 4, t as nat) as int;
    if c < 3 {
        colours[q * 4 + c] as int
    } else {
        colours[q * 4 + 3] * alpha[t] / 255
    }
}

/// Write one 4x4 colour block into the image, clipping at its edges.
fn put_block(
    out: &mut Vec<u8>,
    width: u32,
    height: u32,
    ox: u32,
    oy: u32,
    colours: &[u8; 16],
    indices: u32,
    alpha: &[u8; 16],
)
    requires
        old(out)@.len() == width * height * 4,
        width <= 4096,
        height <= 4096,
        ox <= 4096,
        oy <= 4096,
    ensures
        final(out)@.len() == old(out)@.len(),
        forall|px: int, py: int, c: int|
            0 <= px < width && 0 <= py < height && 0 <= c < 4 ==> #[trigger] final(out)@[pix(
                width as int,
                px,
                py,
                c,
            )] == if ox <= px < ox + 4 && oy <= py < oy + 4 {
                block_value(colours@, indices as nat, alpha@, (py - oy) * 4 + (px - ox), c) as u8
            } else {
                old(out)@[pix(width as int, px, py, c)]
            },
{
    let ghost w = width as int;
    let ghost before = out@;
    let mut rest = indices;
    let mut y: u32 = 0;
    while y < 4
        invariant
            y <= 4,
            out@.len() == before.len(),
            before.len() == width * height * 4,
            width <= 4096 && height <= 4096 && ox <= 4096 && oy <= 4096,
            w == width,
            rest as nat == drop_digits(indices as nat, 4, (y * 4) as nat),
            forall|px: int, py: int, c: int|
                0 <= px < width && 0 <= py < height && 0 <= c < 4 ==> #[trigger] out@[pix(w, px, py, c)]
                    == if ox <= px < ox + 4 && oy <= py < oy + y {
                    block_value(colours@, indices as nat, alpha@, (py - oy) * 4 + (px - ox), c) as u8
                } else {
                    before[pix(w, px, py, c)]
                },
        decreases 4 - y,
    {
        let mut x: u32 = 0;
        while x < 4
            invariant
                y < 4,
                x <= 4,
                out@.len() == before.len(),
                before.len() == width * height * 4,
                width <= 4096 && height <= 4096 && ox <= 4096 && oy <= 4096,
                w == width,
                rest as nat == drop_digits(indices as nat, 4, (y * 4 + x) as nat),
                forall|px: int, py: int, c: int|
                    0 <= px < width && 0 <= py < height && 0 <= c < 4 ==> #[trigger] out@[pix(w, px, py, c)]
                        == if ox <= px < ox + 4 && (oy <= py < oy + y || (py == oy + y && px < ox + x)) {
                        block_value(colours@, indices as nat, alpha@, (py - oy) * 4 + (px - ox), c) as u8
                    } else {
                        before[pix(w, px, py, c)]
                    },
            decreases 4 - x,
        {
            let px = ox + x;
            let py = oy + y;
            let ghost t = (y * 4 + x) as int;
            proof {
                lemma_digit_drop(indices as nat, 4, t as nat);
            }
            let q = (rest % 4) as usize;
            if px < width && py < height {
                let texel = (y * 4 + x) as usize;
                proof {
                    assert((py * width + px) * 4 < 4096 * 4096 * 4) by (nonlinear_arith)
                        requires py < height, px < width, width <= 4096, height <= 4096;
                }
                let at = ((py * width + px) * 4) as usize;
                proof {
                    lemma_pix_bounds(w, height as int, px as int, py as int, 3);
                    assert(at == pix(w, px as int, py as int, 0));
                }
                let ghost mid = out@;
                proof {
                    let (cv, av) = (colours@[q * 4 + 3] as int, alpha@[texel as int] as int);
                    assert(cv * av <= 255 * 255) by (nonlinear_arith)
                        requires 0 <= cv < 256, 0 <= av < 256;
                }
                out[at] = colours[q * 4];
                out[at + 1] = colours[q * 4 + 1];
                out[at + 2] = colours[q * 4 + 2];
                out[at + 3] = ((colours[q * 4 + 3] as u16 * alpha[texel] as u16) / 255) as u8;
                proof {
                    assert(colours@[q * 4 + 3] * alpha@[texel as int] / 255 < 256) by (nonlinear_arith)
                        requires colours@[q * 4 + 3] < 256, alpha@[texel as int] < 256;
                    assert forall|ax: int, ay: int, c: int|
                        0 <= ax < width && 0 <= ay < height && 0 <= c < 4 implies #[trigger] out@[pix(w, ax, ay, c)]
                            == if ox <= ax < ox + 4 && (oy <= ay < oy + y || (ay == oy + y && ax < ox + x + 1)) {
                            block_value(colours@, indices as nat, alpha@, (ay - oy) * 4 + (ax - ox), c) as u8
                        } else {
                            before[pix(w, ax, ay, c)]
                        } by {
                        lemma_pix_bounds(w, height as int, ax, ay, c);
                        if ax == px && ay == py {
                            assert(pix(w, ax, ay, c) == at + c);
                        } else {
                            if pix(w, ax, ay, c) >= at && pix(w, ax, ay, c) < at + 4 {
                                lemma_pix_injective(w, ax, ay, c, px as int, py as int, pix(w, ax, ay, c) - at);
                            }
                            assert(out@[pix(w, ax, ay, c)] == mid[pix(w, ax, ay, c)]);
                        }
                    }
                }
            } else {
                proof {
                    assert forall|ax: int, ay: int, c: int|
                        0 <= ax < width && 0 <= ay < height && 0 <= c < 4 implies #[trigger] out@[pix(w, ax, ay, c)]
                            == if ox <= ax < ox + 4 && (oy <= ay < oy + y || (ay == oy + y && ax < ox + x + 1)) {
                            block_value(colours@, indices as nat, alpha@, (ay - oy) * 4 + (ax - ox), c) as u8
                        } else {
                            before[pix(w, ax, ay, c)]
                        } by {
                    }
                }
            }
            rest = rest / 4;
            x = x + 1;
        }
        y = y + 1;
    }
}

proof fn lemma_pixel_of_index(w: int, h: int, i: int)
    requires
        0 < w,
        0 < h,
        0 <= i < w * h * 4,
    ensures
        0 <= (i / 4) % w < w,
        0 <= (i / 4) / w < h,
        0 <= i % 4 < 4,
        pix(w, (i / 4) % w, (i / 4) / w, i % 4) == i,
{
    let p = i / 4;
    assert(0 <= p < w * h);
    vstd::arithmetic::div_mod::lemma_fundamental_div_mod(p, w);
    assert(p / w < h) by (nonlinear_arith)
        requires 0 <= p < w * h, 0 < w, p == w * (p / w) + p % w, 0 <= p % w;
    assert(p / w >= 0) by (nonlinear_arith)
        requires 0 <= p, 0 < w;
    assert((p / w) * w + p % w == p) by (nonlinear_arith)
        requires p == w * (p / w) + p % w;
}

/// Decode every block of a block-compressed image.
fn decode_blocks(body: &[u8], kind: Dxt, width: u32, height: u32) -> (out: Vec<u8>)
    requires
        0 < width <= 4096,
        0 < height <= 4096,
        body@.len() >= blocks_across(width as int) * blocks_across(height as int) * block_bytes(kind),
    ensures
        out@ == block_image(body@, kind, width as int, height as int),
{
    let ghost w = width as int;
    let ghost h = height as int;
    proof {
        assert(w * h * 4 <= 4096 * 4096 * 4) by (nonlinear_arith)
            requires 0 < w <= 4096, 0 < h <= 4096;
    }
    let n = (width as usize) * (height as usize) * 4;
    let mut out: Vec<u8> = vec![0u8; n];
    proof {
        assert forall|px: int, py: int, c: int|
            0 <= px < w && 0 <= py < h && 0 <= c < 4 implies #[trigger] out@[pix(w, px, py, c)] == 0u8 by {
            lemma_pix_bounds(w, h, px, py, c);
            assert(cloned(0u8, out@[pix(w, px, py, c)]));
        }
    }
    let bb: usize = if kind == Dxt::One {
        8
    } else {
        16
    };
    let bxn: u32 = (width + 3) / 4;
    let byn: u32 = (height + 3) / 4;
    let mut by: u32 = 0;
    while by < byn
        invariant
            0 < width <= 4096,
            0 < height <= 4096,
            w == width && h == height,
            bb == block_bytes(kind),
            bxn == blocks_across(w),
            byn == blocks_across(h),
            body@.len() >= bxn * byn * bb,
            by <= byn,
            out@.len() == w * h * 4,
            forall|px: int, py: int, c: int|
                0 <= px < w && 0 <= py < h && 0 <= c < 4 ==> #[trigger] out@[pix(w, px, py, c)]
                    == if py / 4 < by {
                    texel_byte(body@, kind, w, px, py, c) as u8
                } else {
                    0u8
                },
        decreases byn - by,
    {
        let mut bx: u32 = 0;
        while bx < bxn
            invariant
                0 < width <= 4096,
                0 < height <= 4096,
                w == width && h == height,
                bb == block_bytes(kind),
                bxn == blocks_across(w),
                byn == blocks_across(h),
                body@.len() >= bxn * byn * bb,
                by < byn,
                bx <= bxn,
                out@.len() == w * h * 4,
                forall|px: int, py: int, c: int|
                    0 <= px < w && 0 <= py < h && 0 <= c < 4 ==> #[trigger] out@[pix(w, px, py, c)]
                        == if py / 4 < by || (py / 4 == by && px / 4 < bx) {
                        texel_byte(body@, kind, w, px, py, c) as u8
                    } else {
                        0u8
                    },
            decreases bxn - bx,
        {
            proof {
                assert((by * bxn + bx + 1) * bb <= bxn * byn * bb) by (nonlinear_arith)
                    requires by < byn, bx < bxn, 0 < bb;
                assert(bxn * byn * bb <= 1025 * 1025 * 16) by (nonlinear_arith)
                    requires bxn <= 1025, byn <= 1025, bb <= 16;
            }
            let k = (by * bxn + bx) as usize;
            let at = k * bb;
            let block = vstd::slice::slice_subrange(body, at, at + bb);
            let colour = if kind == Dxt::One {
                block
            } else {
                vstd::slice::slice_subrange(block, 8, 16)
            };
            let alpha = block_alpha(block, kind);
            let colours = palette(colour, kind == Dxt::One);
            let indices = le_u32(colour, 4);
            let ghost before = out@;
            put_block(&mut out, width, height, bx * 4, by * 4, &colours, indices, &alpha);
            proof {
                assert forall|px: int, py: int, c: int|
                    0 <= px < w && 0 <= py < h && 0 <= c < 4 implies #[trigger] out@[pix(w, px, py, c)]
                        == if py / 4 < by || (py / 4 == by && px / 4 < bx + 1) {
                        texel_byte(body@, kind, w, px, py, c) as u8
                    } else {
                        0u8
                    } by {
                    let ox = bx * 4;
                    let oy = by * 4;
                    if ox <= px < ox + 4 && oy <= py < oy + 4 {
                        assert(px / 4 == bx && py / 4 == by);
                        let t = (py - oy) * 4 + (px - ox);
                        assert(t == (py % 4) * 4 + px % 4);
                        assert(0 <= t < 16);
                        lemma_digit_drop(indices as nat, 4, t as nat);
                        let q = digit(indices as nat, 4, t as nat) as int;
                        assert(0 <= q < 4);
                        assert(colours@[q * 4 + c] == palette_byte(colour@, kind == Dxt::One, q, c));
                        assert(colours@[q * 4 + 3] == palette_byte(colour@, kind == Dxt::One, q, 3));
                        assert(block@ =~= body@.subrange(
                            ((py / 4) * blocks_across(w) + px / 4) * block_bytes(kind),
                            ((py / 4) * blocks_across(w) + px / 4) * block_bytes(kind) + block_bytes(kind),
                        ));
                        assert(alpha@[t] == if kind == Dxt::One {
                            255
                        } else if kind == Dxt::Three {
                            dxt3_alpha(block@, t)
                        } else {
                            dxt5_alpha(block@, t)
                        });
                    } else {
                        assert(!(px / 4 == bx && py / 4 == by));
                    }
                }
            }
            bx = bx + 1;
        }
        proof {
            assert forall|px: int, py: int, c: int|
                0 <= px < w && 0 <= py < h && 0 <= c < 4 implies #[trigger] out@[pix(w, px, py, c)]
                    == if py / 4 < by + 1 {
                    texel_byte(body@, kind, w, px, py, c) as u8
                } else {
                    0u8
                } by {
                assert(px / 4 < bxn);
            }
        }
        by = by + 1;
    }
    proof {
        assert forall|i: int| 0 <= i < out@.len() implies #[trigger] out@[i] == block_image(
            body@,
            kind,
            w,
            h,
        )[i] by {
            lemma_pixel_of_index(w, h, i);
            let (px, py, c) = ((i / 4) % w, (i / 4) / w, i % 4);
            assert(py / 4 < byn);
        }
        assert(out@ =~= block_image(body@, kind, w, h));
    }
    out
}

/// Read an uncompressed 32-bit image, which Spring writes as BGRA.
fn decode_bgra(body: &[u8], width: u32, height: u32) -> (out: Vec<u8>)
    requires
        0 < width <= 4096,
        0 < height <= 4096,
        body@.len() >= width * height * 4,
    ensures
        out@ == bgra_image(body@, width as int, height as int),
{
    proof {
        assert(width * height * 4 <= 4096 * 4096 * 4) by (nonlinear_arith)
            requires 0 < width <= 4096, 0 < height <= 4096;
    }
    let n = (width as usize) * (height as usize) * 4;
    let mut out: Vec<u8> = vec![0u8; n];
    let ghost target = bgra_image(body@, width as int, height as int);
    let mut p: usize = 0;
    while p < n / 4
        invariant
            n == width * height * 4,
            body@.len() >= n,
            out@.len() == n,
            p <= n / 4,
            target == bgra_image(body@, width as int, height as int),
            forall|i: int| 0 <= i < 4 * p ==> #[trigger] out@[i] == target[i],
        decreases n / 4 - p,
    {
        let at = 4 * p;
        out[at] = body[at + 2];
        out[at + 1] = body[at + 1];
        out[at + 2] = body[at];
        out[at + 3] = body[at + 3];
        assert forall|i: int| 0 <= i < 4 * (p + 1) implies #[trigger] out@[i] == target[i] by {
            if i >= at {
                assert(i / 4 == p as int);
            }
        }
        p = p + 1;
    }
    assert(out@ =~= target);
    out
}

/// Decode a DDS into RGBA, or `None` if it is not one this understands.
pub fn decode(bytes: &[u8]) -> (r: Option<Rgba>)
    ensures
        match spec_decode(bytes@) {
            Some((w, h, px)) => r matches Some(img) && img.width == w && img.height == h
                && img.pixels@ == spec_base64_standard(px),
            None => r is None,
        },
{
    if bytes.len() < HEADER || !(bytes[0] == 68 && bytes[1] == 68 && bytes[2] == 83 && bytes[3]
        == 32) {
        return None;
    }
    let height = le_u32(bytes, 12);
    let width = le_u32(bytes, 16);
    if width == 0 || height == 0 || width > MAX_SIDE || height > MAX_SIDE {
        return None;
    }
    let rgb_bits = le_u32(bytes, 88);
    let body = vstd::slice::slice_subrange(bytes, HEADER, bytes.len());
    assert(body@ =~= bytes@.skip(128));
    let f = (bytes[84], bytes[85], bytes[86], bytes[87]);
    let kind = if f.0 == 68 && f.1 == 88 && f.2 == 84 && f.3 == 49 {
        Some(Dxt::One)
    } else if f.0 == 68 && f.1 == 88 && f.2 == 84 && f.3 == 51 {
        Some(Dxt::Three)
    } else if f.0 == 68 && f.1 == 88 && f.2 == 84 && f.3 == 53 {
        Some(Dxt::Five)
    } else {
        None
    };
    match kind {
        None => {
            // Uncompressed 32-bit. Spring writes these as BGRA.
            if rgb_bits != 32 {
                return None;
            }
            proof {
                assert(width * height * 4 <= 4096 * 4096 * 4) by (nonlinear_arith)
                    requires 0 < width <= 4096, 0 < height <= 4096;
            }
            let need = (width as usize) * (height as usize) * 4;
            if body.len() < need {
                return None;
            }
            let out = decode_bgra(body, width, height);
            Some(Rgba { width, height, pixels: base64_standard(out.as_slice()) })
        },
        Some(kind) => {
            let bb: usize = if kind == Dxt::One {
                8
            } else {
                16
            };
            let bxn = ((width + 3) / 4) as usize;
            let byn = ((height + 3) / 4) as usize;
            proof {
                assert(bxn * byn * bb <= 1025 * 1025 * 16) by (nonlinear_arith)
                    requires bxn <= 1025, byn <= 1025, bb <= 16;
            }
            if body.len() < bxn * byn * bb {
                return None;
            }
            let out = decode_blocks(body, kind, width, height);
            Some(Rgba { width, height, pixels: base64_standard(out.as_slice()) })
        },
    }
}

/// The bytes a texture `w` by `h` takes after the header: eight a block of
/// four by four texels for DXT1, sixteen for DXT3 and DXT5, and four a
/// texel for an uncompressed one.
pub open spec fn bytes_needed(b: Seq<u8>, w: int, h: int) -> int {
    match spec_kind(b) {
        Some(kind) => blocks_across(w) * blocks_across(h) * block_bytes(kind),
        None => w * h * 4,
    }
}

/// A file decodes exactly when it opens with `DDS `, holds a whole header,
/// is one to 4096 texels on each side, is DXT1, DXT3, DXT5 or 32-bit
/// uncompressed, and holds after its header the bytes that size needs. What
/// it decodes to has the header's width and height and four bytes a texel.
pub proof fn law_what_decodes(b: Seq<u8>)
    ensures
        spec_decode(b) is Some <==> {
            &&& b.len() >= 128
            &&& b[0] == 68 && b[1] == 68 && b[2] == 83 && b[3] == 32
            &&& 1 <= le_u32_value(b, 16) <= 4096
            &&& 1 <= le_u32_value(b, 12) <= 4096
            &&& (spec_kind(b) is None ==> le_u32_value(b, 88) == 32)
            &&& b.len() - 128 >= bytes_needed(b, le_u32_value(b, 16), le_u32_value(b, 12))
        },
        spec_decode(b) matches Some((w, h, px)) ==> w == le_u32_value(b, 16) && h == le_u32_value(b, 12)
            && px.len() == w * h * 4,
{
    if b.len() >= 128 {
        let w = le_u32_value(b, 16);
        let h = le_u32_value(b, 12);
        assert(b.skip(128).len() == b.len() - 128);
        if 1 <= w && 1 <= h {
            assert(w * h * 4 >= 0) by (nonlinear_arith)
                requires 1 <= w, 1 <= h;
        }
    }
}

} // verus!
