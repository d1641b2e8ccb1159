use vstd::prelude::*;
use vstd::utf8::encode_scalar;
use crate::decimal::{decimal, push_decimal, push_all};

verus! {

/// Pixels of one Braille cell: two columns by four rows.
pub const CELL_PIXELS: usize = 8;

/// Pixels darker than this raise their dot.
pub const DARK_BELOW: u8 = 128;

/// Escape sequence that selects a true-colour foreground; the red, green and
/// blue components follow in decimal, separated by `;` and closed by `m`.
pub const FG_PREFIX: [u8; 7] = [27, 91, 51, 56, 59, 50, 59];

/// Escape sequence that resets all attributes.
pub const RESET: [u8; 4] = [27, 91, 48, 109];

/// The dot raised by the `k`-th pixel of a cell, pixels taken row by row:
/// the left column holds dots 1, 2, 3, 7 and the right column dots 4, 5, 6, 8
/// of the Braille pattern (bits 0..7 of the offset from U+2800).
pub open spec fn spec_dot_bit(k: int) -> u32 {
    if k == 0 { 0x01 }
    else if k == 1 { 0x08 }
    else if k == 2 { 0x02 }
    else if k == 3 { 0x10 }
    else if k == 4 { 0x04 }
    else if k == 5 { 0x20 }
    else if k == 6 { 0x40 }
    else { 0x80 }
}

/// The dot bit of the pixel at row `dy` (0..4) and column `dx` (0..2) of a cell.
pub fn dot_bit(dy: usize, dx: usize) -> (b: u32)
    requires
        dy < 4,
        dx < 2,
    ensures
        b == spec_dot_bit(2 * dy + dx),
{
    if dy == 0 {
        if dx == 0 { 0x01 } else { 0x08 }
    } else if dy == 1 {
        if dx == 0 { 0x02 } else { 0x10 }
    } else if dy == 2 {
        if dx == 0 { 0x04 } else { 0x20 }
    } else {
        if dx == 0 { 0x40 } else { 0x80 }
    }
}

/// Sum of the dot bits of the first `k` pixels of a cell.
pub open spec fn bits_upto(k: nat) -> int
    decreases k,
{
    if k == 0 {
        0
    } else {
        bits_upto((k - 1) as nat) + spec_dot_bit(k - 1) as int
    }
}

proof fn lemma_bits_upto(k: nat)
    requires
        k <= 8,
    ensures
        bits_upto(k) <= 255,
        bits_upto(8) == 255,
{
    reveal_with_fuel(bits_upto, 9);
    assert(bits_upto(8) == 255);
    assert(bits_upto(0) == 0 && bits_upto(1) == 1 && bits_upto(2) == 9 && bits_upto(3) == 11);
    assert(bits_upto(4) == 27 && bits_upto(5) == 31 && bits_upto(6) == 63 && bits_upto(7) == 127);
}

/// Index in a `bw`-wide buffer of the `k`-th pixel of the cell at `row`, `col`.
pub open spec fn pixel_index(bw: int, row: int, col: int, k: int) -> int {
    (4 * row + k / 2) * bw + 2 * col + k % 2
}

/// Sum of the dot bits of the first `k` pixels of a cell that are dark.
pub open spec fn dots_upto(gray: Seq<u8>, bw: int, row: int, col: int, k: nat) -> int
    decreases k,
{
    if k == 0 {
        0
    } else {
        dots_upto(gray, bw, row, col, (k - 1) as nat) + (if gray[pixel_index(bw, row, col, k - 1)]
            < DARK_BELOW {
            spec_dot_bit(k - 1) as int
        } else {
            0
        })
    }
}

/// Sum over the first `k` pixels of a cell of colour channel `ch` (0 red,
/// 1 green, 2 blue) in an RGB24 buffer.
pub open spec fn channel_upto(rgb: Seq<u8>, bw: int, row: int, col: int, ch: int, k: nat) -> int
    decreases k,
{
    if k == 0 {
        0
    } else {
        channel_upto(rgb, bw, row, col, ch, (k - 1) as nat) + rgb[3 * pixel_index(bw, row, col, k - 1)
            + ch] as int
    }
}

/// The Braille pattern of a cell: the dots of its dark pixels.
pub open spec fn cell_dots(gray: Seq<u8>, bw: int, row: int, col: int) -> int {
    dots_upto(gray, bw, row, col, 8)
}

/// Mean of a colour channel over a cell, rounded down.
pub open spec fn cell_mean(rgb: Seq<u8>, bw: int, row: int, col: int, ch: int) -> int {
    channel_upto(rgb, bw, row, col, ch, 8) / 8
}

/// The UTF-8 bytes of the Braille character with dot pattern `dots`.
pub open spec fn braille_bytes(dots: int) -> Seq<u8> {
    encode_scalar((0x2800 + dots) as u32)
}

/// The bytes a cell renders to: its Braille character, wrapped in a
/// foreground colour of the cell's mean colour when colour is on.
pub open spec fn cell_bytes(rgb: Seq<u8>, gray: Seq<u8>, bw: int, row: int, col: int, use_rgb: bool) -> Seq<u8> {
    let ch = braille_bytes(cell_dots(gray, bw, row, col));
    if use_rgb {
        FG_PREFIX@ + decimal(cell_mean(rgb, bw, row, col, 0) as nat) + seq![59u8] + decimal(
            cell_mean(rgb, bw, row, col, 1) as nat,
        ) + seq![59u8] + decimal(cell_mean(rgb, bw, row, col, 2) as nat) + seq![109u8] + ch
            + RESET@
    } else {
        ch
    }
}

/// The first `n` cells of a text row, concatenated.
pub open spec fn cells_upto(rgb: Seq<u8>, gray: Seq<u8>, bw: int, row: int, use_rgb: bool, n: nat) -> Seq<u8>
    decreases n,
{
    if n == 0 {
        seq![]
    } else {
        cells_upto(rgb, gray, bw, row, use_rgb, (n - 1) as nat) + cell_bytes(rgb, gray, bw, row, n - 1, use_rgb)
    }
}

/// Text row `row` of the picture: one cell per two pixel columns, then a newline.
pub open spec fn braille_row(rgb: Seq<u8>, gray: Seq<u8>, bw: int, row: int, use_rgb: bool) -> Seq<u8> {
    cells_upto(rgb, gray, bw, row, use_rgb, (bw / 2) as nat).push(10u8)
}

/// Pixels a `bw` by `bh` picture must provide for its whole cells: up to the
/// last pixel of the last whole cell.
pub open spec fn pixels_needed(bw: int, bh: int) -> int {
    if bh / 4 == 0 || bw / 2 == 0 {
        0
    } else {
        (4 * (bh / 4) - 1) * bw + 2 * (bw / 2)
    }
}

/// Every pixel of a whole cell lies before `pixels_needed`.
proof fn lemma_pixel_in_range(bw: int, bh: int, row: int, col: int, k: int)
    requires
        0 <= row < bh / 4,
        0 <= col < bw / 2,
        0 <= k < 8,
        bw >= 0,
        bh >= 0,
    ensures
        0 <= (4 * row + k / 2) * bw,
        0 <= pixel_index(bw, row, col, k) < pixels_needed(bw, bh),
{
    let dy = k / 2;
    let dx = k % 2;
    assert(0 <= dy < 4 && 0 <= dx < 2);
    assert(4 * row + dy <= 4 * (bh / 4) - 1);
    assert((4 * row + dy) * bw <= (4 * (bh / 4) - 1) * bw) by (nonlinear_arith)
        requires
            4 * row + dy <= 4 * (bh / 4) - 1,
            bw >= 0,
    ;
    assert(0 <= (4 * row + dy) * bw) by (nonlinear_arith)
        requires
            4 * row + dy >= 0,
            bw >= 0,
    ;
}

/// Appends the bytes of one cell to `line`.
#[verifier::rlimit(30)]
fn push_cell(line: &mut Vec<u8>, rgb: &[u8], gray: &[u8], bw: u32, bh: u32, row: usize, col: usize, use_rgb: bool)
    requires
        row < bh / 4,
        col < bw / 2,
        gray@.len() >= pixels_needed(bw as int, bh as int),
        rgb@.len() >= 3 * pixels_needed(bw as int, bh as int),
    ensures
        final(line)@ == old(line)@ + cell_bytes(rgb@, gray@, bw as int, row as int, col as int, use_rgb),
{
    let w = bw as usize;
    let mut dots: u32 = 0;
    let mut rs: u32 = 0;
    let mut gs: u32 = 0;
    let mut bs: u32 = 0;
    let mut k: usize = 0;
    while k < CELL_PIXELS
        invariant
            w == bw,
            row < bh / 4,
            col < bw / 2,
            gray@.len() >= pixels_needed(bw as int, bh as int),
            rgb@.len() >= 3 * pixels_needed(bw as int, bh as int),
            k <= 8,
            dots == dots_upto(gray@, bw as int, row as int, col as int, k as nat),
            dots <= bits_upto(k as nat),
            rs == channel_upto(rgb@, bw as int, row as int, col as int, 0, k as nat),
            gs == channel_upto(rgb@, bw as int, row as int, col as int, 1, k as nat),
            bs == channel_upto(rgb@, bw as int, row as int, col as int, 2, k as nat),
            rs <= 255 * k && gs <= 255 * k && bs <= 255 * k,
        decreases 8 - k,
    {
        let dy = k / 2;
        let dx = k % 2;
        proof {
            lemma_pixel_in_range(bw as int, bh as int, row as int, col as int, k as int);
        }
        let py = row * 4 + dy;
        let px = col * 2 + dx;
        assert(py * w == (4 * row + k / 2) * bw);
        assert(pixel_index(bw as int, row as int, col as int, k as int) < gray.len());
        assert(py * w + px == pixel_index(bw as int, row as int, col as int, k as int));
        let o = py * w + px;
        assert(o == pixel_index(bw as int, row as int, col as int, k as int));
        assert(3 * o + 2 < rgb.len());
        proof {
            lemma_bits_upto((k + 1) as nat);
        }
        if gray[o] < DARK_BELOW {
            dots = dots + dot_bit(dy, dx);
        }
        rs = rs + rgb[3 * o] as u32;
        gs = gs + rgb[3 * o + 1] as u32;
        bs = bs + rgb[3 * o + 2] as u32;
        k += 1;
    }
    proof {
        lemma_bits_upto(8);
    }
    let cp: u32 = 0x2800 + dots;
    let b0: u8 = 0xE0u8 | ((cp >> 12u32) & 0x0F) as u8;
    let b1: u8 = 0x80u8 | ((cp >> 6u32) & 0x3F) as u8;
    let b2: u8 = 0x80u8 | (cp & 0x3F) as u8;
    assert(0x800 <= cp <= 0xFFFF && !(0xD800 <= cp <= 0xDFFF));
    assert(seq![b0, b1, b2] =~= braille_bytes(dots as int));
    if use_rgb {
        push_all(line, &FG_PREFIX);
        push_decimal(line, (rs / 8) as u64);
        line.push(59u8);
        push_decimal(line, (gs / 8) as u64);
        line.push(59u8);
        push_decimal(line, (bs / 8) as u64);
        line.push(109u8);
        line.push(b0);
        line.push(b1);
        line.push(b2);
        push_all(line, &RESET);
    } else {
        line.push(b0);
        line.push(b1);
        line.push(b2);
    }
    assert(final(line)@ =~= old(line)@ + cell_bytes(rgb@, gray@, bw as int, row as int, col as int, use_rgb));
}

/// Renders an RGB24 picture `bw` pixels wide and `bh` high as Braille art:
/// each 2 by 4 block of pixels becomes one character whose dots are the
/// block's dark pixels (`gray` holds each pixel's brightness), and with
/// `use_rgb` the character is coloured with the block's mean colour. Pixels
/// past the last whole block on the right or at the bottom are dropped. One
/// line per text row, each ending in a newline.
pub fn to_braille(rgb: &[u8], gray: &[u8], bw: u32, bh: u32, use_rgb: bool) -> (out: Vec<Vec<u8>>)
    requires
        gray@.len() >= pixels_needed(bw as int, bh as int),
        rgb@.len() >= 3 * pixels_needed(bw as int, bh as int),
    ensures
        out@.len() == bh / 4,
        forall|r: int| 0 <= r < bh / 4 ==> #[trigger] out@[r]@ == braille_row(rgb@, gray@, bw as int, r, use_rgb),
{
    let cols = (bw / 2) as usize;
    let rows = (bh / 4) as usize;
    let mut out: Vec<Vec<u8>> = Vec::new();
    let mut row: usize = 0;
    while row < rows
        invariant
            cols == bw / 2,
            rows == bh / 4,
            row <= rows,
            gray@.len() >= pixels_needed(bw as int, bh as int),
            rgb@.len() >= 3 * pixels_needed(bw as int, bh as int),
            out@.len() == row,
            forall|r: int| 0 <= r < row ==> #[trigger] out@[r]@ == braille_row(rgb@, gray@, bw as int, r, use_rgb),
        decreases rows - row,
    {
        let mut line: Vec<u8> = Vec::new();
        let mut col: usize = 0;
        while col < cols
            invariant
                cols == bw / 2,
                rows == bh / 4,
                row < rows,
                col <= cols,
                gray@.len() >= pixels_needed(bw as int, bh as int),
                rgb@.len() >= 3 * pixels_needed(bw as int, bh as int),
                line@ == cells_upto(rgb@, gray@, bw as int, row as int, use_rgb, col as nat),
            decreases cols - col,
        {
            push_cell(&mut line, rgb, gray, bw, bh, row, col, use_rgb);
            col += 1;
        }
        line.push(10u8);
        out.push(line);
        row += 1;
    }
    out
}

/// Reading a cell's character back gives its pixels: the `k`-th pixel of
/// the cell is dark exactly when the character raises that pixel's dot.
pub proof fn lemma_cell_dots_decode(gray: Seq<u8>, bw: int, row: int, col: int, k: int)
    requires
        0 <= k < 8,
    ensures
        0 <= cell_dots(gray, bw, row, col) <= 255,
        ((cell_dots(gray, bw, row, col) as u32) & spec_dot_bit(k) != 0) <==> gray[pixel_index(bw, row, col, k)] < DARK_BELOW,
{
    reveal_with_fuel(dots_upto, 9);
    let d0 = gray[pixel_index(bw, row, col, 0)] < DARK_BELOW;
    let d1 = gray[pixel_index(bw, row, col, 1)] < DARK_BELOW;
    let d2 = gray[pixel_index(bw, row, col, 2)] < DARK_BELOW;
    let d3 = gray[pixel_index(bw, row, col, 3)] < DARK_BELOW;
    let d4 = gray[pixel_index(bw, row, col, 4)] < DARK_BELOW;
    let d5 = gray[pixel_index(bw, row, col, 5)] < DARK_BELOW;
    let d6 = gray[pixel_index(bw, row, col, 6)] < DARK_BELOW;
    let d7 = gray[pixel_index(bw, row, col, 7)] < DARK_BELOW;
    let x: u32 = ((if d0 { 1u32 } else { 0u32 }) + (if d1 { 8u32 } else { 0u32 }) + (if d2 { 2u32 } else { 0u32 })
        + (if d3 { 16u32 } else { 0u32 }) + (if d4 { 4u32 } else { 0u32 }) + (if d5 { 32u32 } else { 0u32 })
        + (if d6 { 64u32 } else { 0u32 }) + (if d7 { 128u32 } else { 0u32 })) as u32;
    assert(cell_dots(gray, bw, row, col) == x);
    assert(((x & 1u32) != 0) == d0 && ((x & 8u32) != 0) == d1 && ((x & 2u32) != 0) == d2 && ((x & 16u32) != 0) == d3
        && ((x & 4u32) != 0) == d4 && ((x & 32u32) != 0) == d5 && ((x & 64u32) != 0) == d6 && ((x & 128u32) != 0) == d7)
        by (bit_vector)
        requires
            x == ((if d0 { 1u32 } else { 0u32 }) + (if d1 { 8u32 } else { 0u32 }) + (if d2 { 2u32 } else { 0u32 })
                + (if d3 { 16u32 } else { 0u32 }) + (if d4 { 4u32 } else { 0u32 }) + (if d5 { 32u32 } else { 0u32 })
                + (if d6 { 64u32 } else { 0u32 }) + (if d7 { 128u32 } else { 0u32 })) as u32,
    ;
}

/// A Braille character is three UTF-8 bytes, none of them ASCII.
pub proof fn lemma_braille_bytes(dots: int)
    requires
        0 <= dots <= 255,
    ensures
        braille_bytes(dots).len() == 3,
        forall|i: int| 0 <= i < 3 ==> #[trigger] braille_bytes(dots)[i] >= 0x80,
{
    let cp = (0x2800 + dots) as u32;
    assert(0x2800 <= cp <= 0x28FF);
    assert(0xE0u8 | ((cp >> 12u32) & 0x0Fu32) as u8 >= 0x80u8) by (bit_vector);
    assert(0x80u8 | ((cp >> 6u32) & 0x3Fu32) as u8 >= 0x80u8) by (bit_vector);
    assert(0x80u8 | (cp & 0x3Fu32) as u8 >= 0x80u8) by (bit_vector);
}

/// Darker pixels never lower a dot: if every pixel of a cell in `darker`
/// is at most as bright as in `lighter`, every dot raised for `lighter` is
/// raised for `darker` too.
pub proof fn lemma_darker_raises_more_dots(lighter: Seq<u8>, darker: Seq<u8>, bw: int, row: int, col: int)
    requires
        forall|k: int| 0 <= k < 8 ==> darker[#[trigger] pixel_index(bw, row, col, k)] <= lighter[pixel_index(bw, row, col, k)],
    ensures
        (cell_dots(lighter, bw, row, col) as u32) & !(cell_dots(darker, bw, row, col) as u32) == 0,
{
    reveal_with_fuel(dots_upto, 9);
    let a0 = lighter[pixel_index(bw, row, col, 0)] < DARK_BELOW;
    let a1 = lighter[pixel_index(bw, row, col, 1)] < DARK_BELOW;
    let a2 = lighter[pixel_index(bw, row, col, 2)] < DARK_BELOW;
    let a3 = lighter[pixel_index(bw, row, col, 3)] < DARK_BELOW;
    let a4 = lighter[pixel_index(bw, row, col, 4)] < DARK_BELOW;
    let a5 = lighter[pixel_index(bw, row, col, 5)] < DARK_BELOW;
    let a6 = lighter[pixel_index(bw, row, col, 6)] < DARK_BELOW;
    let a7 = lighter[pixel_index(bw, row, col, 7)] < DARK_BELOW;
    let b0 = darker[pixel_index(bw, row, col, 0)] < DARK_BELOW;
    let b1 = darker[pixel_index(bw, row, col, 1)] < DARK_BELOW;
    let b2 = darker[pixel_index(bw, row, col, 2)] < DARK_BELOW;
    let b3 = darker[pixel_index(bw, row, col, 3)] < DARK_BELOW;
    let b4 = darker[pixel_index(bw, row, col, 4)] < DARK_BELOW;
    let b5 = darker[pixel_index(bw, row, col, 5)] < DARK_BELOW;
    let b6 = darker[pixel_index(bw, row, col, 6)] < DARK_BELOW;
    let b7 = darker[pixel_index(bw, row, col, 7)] < DARK_BELOW;
    assert(darker[pixel_index(bw, row, col, 0)] <= lighter[pixel_index(bw, row, col, 0)]);
    assert(darker[pixel_index(bw, row, col, 1)] <= lighter[pixel_index(bw, row, col, 1)]);
    assert(darker[pixel_index(bw, row, col, 2)] <= lighter[pixel_index(bw, row, col, 2)]);
    assert(darker[pixel_index(bw, row, col, 3)] <= lighter[pixel_index(bw, row, col, 3)]);
    assert(darker[pixel_index(bw, row, col, 4)] <= lighter[pixel_index(bw, row, col, 4)]);
    assert(darker[pixel_index(bw, row, col, 5)] <= lighter[pixel_index(bw, row, col, 5)]);
    assert(darker[pixel_index(bw, row, col, 6)] <= lighter[pixel_index(bw, row, col, 6)]);
    assert(darker[pixel_index(bw, row, col, 7)] <= lighter[pixel_index(bw, row, col, 7)]);
    let x: u32 = ((if a0 { 1u32 } else { 0u32 }) + (if a1 { 8u32 } else { 0u32 }) + (if a2 { 2u32 } else { 0u32 })
        + (if a3 { 16u32 } else { 0u32 }) + (if a4 { 4u32 } else { 0u32 }) + (if a5 { 32u32 } else { 0u32 })
        + (if a6 { 64u32 } else { 0u32 }) + (if a7 { 128u32 } else { 0u32 })) as u32;
    let y: u32 = ((if b0 { 1u32 } else { 0u32 }) + (if b1 { 8u32 } else { 0u32 }) + (if b2 { 2u32 } else { 0u32 })
        + (if b3 { 16u32 } else { 0u32 }) + (if b4 { 4u32 } else { 0u32 }) + (if b5 { 32u32 } else { 0u32 })
        + (if b6 { 64u32 } else { 0u32 }) + (if b7 { 128u32 } else { 0u32 })) as u32;
    assert(cell_dots(lighter, bw, row, col) == x);
    assert(cell_dots(darker, bw, row, col) == y);
    assert(x & !y == 0) by (bit_vector)
        requires
            a0 ==> b0, a1 ==> b1, a2 ==> b2, a3 ==> b3, a4 ==> b4, a5 ==> b5, a6 ==> b6, a7 ==> b7,
            x == ((if a0 { 1u32 } else { 0u32 }) + (if a1 { 8u32 } else { 0u32 }) + (if a2 { 2u32 } else { 0u32 })
                + (if a3 { 16u32 } else { 0u32 }) + (if a4 { 4u32 } else { 0u32 }) + (if a5 { 32u32 } else { 0u32 })
                + (if a6 { 64u32 } else { 0u32 }) + (if a7 { 128u32 } else { 0u32 })) as u32,
            y == ((if b0 { 1u32 } else { 0u32 }) + (if b1 { 8u32 } else { 0u32 }) + (if b2 { 2u32 } else { 0u32 })
                + (if b3 { 16u32 } else { 0u32 }) + (if b4 { 4u32 } else { 0u32 }) + (if b5 { 32u32 } else { 0u32 })
                + (if b6 { 64u32 } else { 0u32 }) + (if b7 { 128u32 } else { 0u32 })) as u32,
    ;
}

/// Index in a `bw`-wide buffer of the pixel in column `x`, row `y`.
pub open spec fn pixel_at(bw: int, x: int, y: int) -> int {
    y * bw + x
}

/// Whether two pictures (RGB triples and brightness) agree at pixel `i`.
pub open spec fn same_pixel(rgb1: Seq<u8>, gray1: Seq<u8>, rgb2: Seq<u8>, gray2: Seq<u8>, i: int) -> bool {
    &&& gray1[i] == gray2[i]
    &&& rgb1[3 * i] == rgb2[3 * i]
    &&& rgb1[3 * i + 1] == rgb2[3 * i + 1]
    &&& rgb1[3 * i + 2] == rgb2[3 * i + 2]
}

/// Whether two `bw` by `bh` pictures agree on every pixel of a whole cell:
/// the columns before `2 * (bw / 2)` of the rows before `4 * (bh / 4)`.
pub open spec fn same_cells(rgb1: Seq<u8>, gray1: Seq<u8>, rgb2: Seq<u8>, gray2: Seq<u8>, bw: int, bh: int) -> bool {
    forall|x: int, y: int| 0 <= x < 2 * (bw / 2) && 0 <= y < 4 * (bh / 4) ==> #[trigger] same_pixel(
        rgb1,
        gray1,
        rgb2,
        gray2,
        pixel_at(bw, x, y),
    )
}

proof fn lemma_same_cell_sums(rgb1: Seq<u8>, gray1: Seq<u8>, rgb2: Seq<u8>, gray2: Seq<u8>, bw: int, bh: int, row: int, col: int, k: nat)
    requires
        same_cells(rgb1, gray1, rgb2, gray2, bw, bh),
        0 <= row < bh / 4,
        0 <= col < bw / 2,
        k <= 8,
    ensures
        dots_upto(gray1, bw, row, col, k) == dots_upto(gray2, bw, row, col, k),
        channel_upto(rgb1, bw, row, col, 0, k) == channel_upto(rgb2, bw, row, col, 0, k),
        channel_upto(rgb1, bw, row, col, 1, k) == channel_upto(rgb2, bw, row, col, 1, k),
        channel_upto(rgb1, bw, row, col, 2, k) == channel_upto(rgb2, bw, row, col, 2, k),
    decreases k,
{
    if k > 0 {
        let j = k - 1;
        lemma_same_cell_sums(rgb1, gray1, rgb2, gray2, bw, bh, row, col, (k - 1) as nat);
        let x = 2 * col + j % 2;
        let y = 4 * row + j / 2;
        assert(pixel_index(bw, row, col, j) == pixel_at(bw, x, y));
        assert(same_pixel(rgb1, gray1, rgb2, gray2, pixel_at(bw, x, y)));
    }
}

proof fn lemma_same_cells_upto(rgb1: Seq<u8>, gray1: Seq<u8>, rgb2: Seq<u8>, gray2: Seq<u8>, bw: int, bh: int, row: int, use_rgb: bool, n: nat)
    requires
        same_cells(rgb1, gray1, rgb2, gray2, bw, bh),
        0 <= row < bh / 4,
        n <= bw / 2,
    ensures
        cells_upto(rgb1, gray1, bw, row, use_rgb, n) == cells_upto(rgb2, gray2, bw, row, use_rgb, n),
    decreases n,
{
    if n > 0 {
        lemma_same_cells_upto(rgb1, gray1, rgb2, gray2, bw, bh, row, use_rgb, (n - 1) as nat);
        lemma_same_cell_sums(rgb1, gray1, rgb2, gray2, bw, bh, row, n - 1, 8);
    }
}

/// Only pixels of whole cells matter: two pictures that agree on them render
/// to the same rows, whatever lies in an odd last column or in the last
/// rows below the last whole cell.
pub proof fn lemma_only_whole_cells_matter(rgb1: Seq<u8>, gray1: Seq<u8>, rgb2: Seq<u8>, gray2: Seq<u8>, bw: int, bh: int, row: int, use_rgb: bool)
    requires
        same_cells(rgb1, gray1, rgb2, gray2, bw, bh),
        0 <= row < bh / 4,
        bw >= 0,
    ensures
        braille_row(rgb1, gray1, bw, row, use_rgb) == braille_row(rgb2, gray2, bw, row, use_rgb),
{
    lemma_same_cells_upto(rgb1, gray1, rgb2, gray2, bw, bh, row, use_rgb, (bw / 2) as nat);
}

} // verus!
