use vstd::prelude::*;
use crate::braille::{FG_PREFIX, RESET, cell_bytes, cells_upto, braille_row, braille_bytes, cell_dots, cell_mean, lemma_braille_bytes, lemma_cell_dots_decode};
use crate::decimal::{decimal, push_decimal, push_all, lemma_decimal_digits};
use crate::frames::concat_rows;
use crate::ramp::{luma, spec_luma, ramp_index, lemma_ramp_printable, lemma_luma_monotone};
use crate::text::{split_on, lemma_split_nonempty, lemma_split_append};

verus! {

/// The bytes one pixel renders to: its glyph on the brightness ramp,
/// wrapped in a foreground colour of the pixel's own colour when colour is on.
pub open spec fn pixel_bytes(rgb: Seq<u8>, gray: Seq<u8>, w: int, x: int, y: int, use_rgb: bool) -> Seq<u8> {
    let i = y * w + x;
    let ch = spec_luma(gray[i]) as u8;
    if use_rgb {
        FG_PREFIX@ + decimal(rgb[3 * i] as nat) + seq![59u8] + decimal(rgb[3 * i + 1] as nat) + seq![59u8]
            + decimal(rgb[3 * i + 2] as nat) + seq![109u8] + seq![ch] + RESET@
    } else {
        seq![ch]
    }
}

/// The first `n` pixels of row `y`, rendered and concatenated.
pub open spec fn pixels_upto(rgb: Seq<u8>, gray: Seq<u8>, w: int, y: int, use_rgb: bool, n: nat) -> Seq<u8>
    decreases n,
{
    if n == 0 {
        seq![]
    } else {
        pixels_upto(rgb, gray, w, y, use_rgb, (n - 1) as nat) + pixel_bytes(rgb, gray, w, n - 1, y, use_rgb)
    }
}

/// The first `n` rows of a `w`-wide picture, each ending in a newline.
pub open spec fn art_upto(rgb: Seq<u8>, gray: Seq<u8>, w: int, use_rgb: bool, n: nat) -> Seq<u8>
    decreases n,
{
    if n == 0 {
        seq![]
    } else {
        art_upto(rgb, gray, w, use_rgb, (n - 1) as nat) + pixels_upto(rgb, gray, w, n - 1, use_rgb, w as nat).push(
            10u8,
        )
    }
}

fn push_pixel(art: &mut Vec<u8>, rgb: &[u8], gray: &[u8], w: u32, h: u32, x: usize, y: usize, use_rgb: bool)
    requires
        x < w,
        y < h,
        gray@.len() >= w * h,
        rgb@.len() >= 3 * w * h,
    ensures
        final(art)@ == old(art)@ + pixel_bytes(rgb@, gray@, w as int, x as int, y as int, use_rgb),
{
    assert(y * w + x < w * h) by (nonlinear_arith)
        requires
            y < h,
            x < w,
    ;
    assert(3 * w * h == 3 * (w * h)) by (nonlinear_arith);
    let wu = w as usize;
    assert(y * wu + x < gray.len());
    assert(3 * (y * wu + x) + 2 < rgb.len());
    let i = y * wu + x;
    let c = luma(gray[i]) as u8;
    if use_rgb {
        push_all(art, &FG_PREFIX);
        push_decimal(art, rgb[3 * i] as u64);
        art.push(59u8);
        push_decimal(art, rgb[3 * i + 1] as u64);
        art.push(59u8);
        push_decimal(art, rgb[3 * i + 2] as u64);
        art.push(109u8);
        art.push(c);
        push_all(art, &RESET);
    } else {
        art.push(c);
    }
    assert(final(art)@ =~= old(art)@ + pixel_bytes(rgb@, gray@, w as int, x as int, y as int, use_rgb));
}

/// Renders a `w` by `h` picture as text art: one glyph per pixel, chosen
/// by the pixel's brightness in `gray`, coloured with its RGB triple from
/// `rgb` when `use_rgb`; a newline ends every row.
pub fn render_ascii(rgb: &[u8], gray: &[u8], w: u32, h: u32, use_rgb: bool) -> (art: Vec<u8>)
    requires
        gray@.len() >= w * h,
        rgb@.len() >= 3 * w * h,
    ensures
        art@ == art_upto(rgb@, gray@, w as int, use_rgb, h as nat),
{
    let wu = w as usize;
    let hu = h as usize;
    let mut art: Vec<u8> = Vec::new();
    let mut y: usize = 0;
    while y < hu
        invariant
            wu == w,
            hu == h,
            y <= hu,
            gray@.len() >= w * h,
            rgb@.len() >= 3 * w * h,
            art@ == art_upto(rgb@, gray@, w as int, use_rgb, y as nat),
        decreases hu - y,
    {
        let ghost row_start = art@;
        let mut x: usize = 0;
        while x < wu
            invariant
                wu == w,
                hu == h,
                y < hu,
                x <= wu,
                gray@.len() >= w * h,
                rgb@.len() >= 3 * w * h,
                art@ == row_start + pixels_upto(rgb@, gray@, w as int, y as int, use_rgb, x as nat),
            decreases wu - x,
        {
            push_pixel(&mut art, rgb, gray, w, h, x, y, use_rgb);
            assert(art@ =~= row_start + pixels_upto(rgb@, gray@, w as int, y as int, use_rgb, x as nat + 1));
            x += 1;
        }
        art.push(10u8);
        assert(art@ =~= art_upto(rgb@, gray@, w as int, use_rgb, y as nat + 1));
        y += 1;
    }
    art
}

/// A line without its trailing carriage return, if any.
pub open spec fn without_cr(l: Seq<u8>) -> Seq<u8> {
    if l.len() > 0 && l.last() == 13 {
        l.drop_last()
    } else {
        l
    }
}

/// One byte of escape removal: `st` is the text kept so far and whether an
/// escape sequence is open. An escape byte opens a sequence, which runs up
/// to and including the next `m`; bytes outside sequences are kept.
pub open spec fn escape_step(st: (Seq<u8>, bool), c: u8) -> (Seq<u8>, bool) {
    if c == 27 {
        (st.0, true)
    } else if st.1 {
        (st.0, c != 109)
    } else {
        (st.0.push(c), false)
    }
}

/// Escape removal over `l`, starting from `st`.
pub open spec fn unescape_from(st: (Seq<u8>, bool), l: Seq<u8>) -> (Seq<u8>, bool)
    decreases l.len(),
{
    if l.len() == 0 {
        st
    } else {
        escape_step(unescape_from(st, l.drop_last()), l.last())
    }
}

/// A line with its escape sequences removed, and whether an escape sequence
/// is still open at its end.
pub open spec fn unescape(l: Seq<u8>) -> (Seq<u8>, bool) {
    unescape_from((seq![], false), l)
}

/// A line as saved in plain text: without escape sequences, then a
/// newline. A line that was ended by a newline loses a carriage return
/// just before it; the last line of a text without a final newline keeps it.
pub open spec fn plain_line(l: Seq<u8>, ended: bool) -> Seq<u8> {
    unescape(if ended { without_cr(l) } else { l }).0.push(10u8)
}

/// Art as saved in plain text: every line without its escape sequences,
/// each followed by a newline; a lone newline for art without lines.
pub open spec fn spec_plain_text(art: Seq<u8>) -> Seq<u8> {
    let pieces = split_on(art, 10u8);
    let ended = concat_rows(pieces.drop_last().map_values(|l: Seq<u8>| plain_line(l, true)));
    if pieces.last().len() > 0 {
        ended + plain_line(pieces.last(), false)
    } else if pieces.len() == 1 {
        seq![10u8]
    } else {
        ended
    }
}

/// Appends `l` without its escape sequences and without a trailing
/// carriage return, then a newline.
fn push_plain_line(out: &mut Vec<u8>, l: &Vec<u8>, ended: bool)
    ensures
        final(out)@ == old(out)@ + plain_line(l@, ended),
{
    let n = if ended && l.len() > 0 && l[l.len() - 1] == 13u8 { l.len() - 1 } else { l.len() };
    let ghost body = if ended { without_cr(l@) } else { l@ };
    assert(body =~= l@.subrange(0, n as int));
    let ghost start = out@;
    let mut open = false;
    let mut i: usize = 0;
    while i < n
        invariant
            n <= l@.len(),
            i <= n,
            body == l@.subrange(0, n as int),
            unescape(body.subrange(0, i as int)) == (out@.subrange(start.len() as int, out@.len() as int), open),
            out@.len() >= start.len(),
            out@.subrange(0, start.len() as int) == start,
        decreases n - i,
    {
        let c = l[i];
        assert(body.subrange(0, i as int + 1).drop_last() =~= body.subrange(0, i as int));
        assert(body.subrange(0, i as int + 1).last() == c);
        let ghost before = out@;
        if c == 27u8 {
            open = true;
        } else if open {
            open = c != 109u8;
        } else {
            out.push(c);
            assert(out@.subrange(start.len() as int, out@.len() as int) =~= before.subrange(start.len() as int, before.len() as int).push(c));
            assert(out@.subrange(0, start.len() as int) =~= start);
        }
        i += 1;
    }
    assert(body.subrange(0, n as int) =~= body);
    let ghost stripped = out@.subrange(start.len() as int, out@.len() as int);
    assert(out@ =~= start + stripped);
    out.push(10u8);
}

/// The art as saved in plain text: every line with its colour codes
/// removed, each ending in a newline.
#[verifier::rlimit(30)]
pub fn plain_text(art: &Vec<u8>) -> (out: Vec<u8>)
    ensures
        out@ == spec_plain_text(art@),
{
    let ghost f = |l: Seq<u8>| plain_line(l, true);
    let mut out: Vec<u8> = Vec::new();
    let mut cur: Vec<u8> = Vec::new();
    let ghost mut done: Seq<Seq<u8>> = seq![];
    let n = art.len();
    let mut i: usize = 0;
    while i < n
        invariant
            n == art@.len(),
            i <= n,
            split_on(art@.subrange(0, i as int), 10u8) == done.push(cur@),
            out@ == concat_rows(done.map_values(f)),
            f == (|l: Seq<u8>| plain_line(l, true)),
            i > 0 ==> out@.len() > 0 || cur@.len() > 0,
        decreases n - i,
    {
        let c = art[i];
        let ghost before = art@.subrange(0, i as int);
        assert(art@.subrange(0, i as int + 1).drop_last() =~= before);
        proof {
            lemma_split_nonempty(before, 10u8);
        }
        if c == 10u8 {
            push_plain_line(&mut out, &cur, true);
            proof {
                assert(done.push(cur@).map_values(f).drop_last() =~= done.map_values(f));
                done = done.push(cur@);
            }
            cur = Vec::new();
            assert(split_on(art@.subrange(0, i as int + 1), 10u8) =~= done.push(cur@));
        } else {
            cur.push(c);
            assert(split_on(art@.subrange(0, i as int + 1), 10u8) =~= done.push(cur@));
        }
        i += 1;
    }
    assert(art@.subrange(0, n as int) =~= art@);
    let ghost pieces = split_on(art@, 10u8);
    assert(pieces.drop_last() =~= done);
    if cur.len() > 0 {
        push_plain_line(&mut out, &cur, false);
    } else if n == 0 {
        assert(pieces =~= seq![seq![]]);
        out.push(10u8);
    } else {
        assert(pieces.len() > 1);
    }
    out
}

/// Escape removal over `a + b` is removal over `a`, then over `b`.
proof fn lemma_unescape_concat(st: (Seq<u8>, bool), a: Seq<u8>, b: Seq<u8>)
    ensures
        unescape_from(st, a + b) == unescape_from(unescape_from(st, a), b),
    decreases b.len(),
{
    if b.len() == 0 {
        assert(a + b =~= a);
    } else {
        lemma_unescape_concat(st, a, b.drop_last());
        assert((a + b).drop_last() =~= a + b.drop_last());
        assert((a + b).last() == b.last());
    }
}

/// Inside an open escape sequence, bytes that neither open nor close one
/// are dropped.
proof fn lemma_unescape_inside(st: (Seq<u8>, bool), d: Seq<u8>)
    requires
        st.1,
        forall|i: int| 0 <= i < d.len() ==> d[i] != 27 && d[i] != 109,
    ensures
        unescape_from(st, d) == st,
    decreases d.len(),
{
    if d.len() > 0 {
        lemma_unescape_inside(st, d.drop_last());
    }
}

/// The glyph of a pixel is printable ASCII.
proof fn lemma_glyph_printable(v: u8)
    ensures
        32 <= spec_luma(v) as u8 <= 126,
{
    lemma_luma_monotone(v, v);
    lemma_ramp_printable(ramp_index(v));
}

/// Outside escape sequences, bytes other than the escape byte are kept.
proof fn lemma_unescape_plain(o: Seq<u8>, g: Seq<u8>)
    requires
        forall|i: int| 0 <= i < g.len() ==> g[i] != 27,
    ensures
        unescape_from((o, false), g) == (o + g, false),
    decreases g.len(),
{
    if g.len() == 0 {
        assert(o + g =~= o);
    } else {
        lemma_unescape_plain(o, g.drop_last());
        assert((o + g.drop_last()).push(g.last()) =~= o + g);
    }
}

/// A coloured glyph without its colour codes is the glyph alone.
#[verifier::rlimit(30)]
proof fn lemma_colored_glyph(o: Seq<u8>, g: Seq<u8>, dr: Seq<u8>, dg: Seq<u8>, db: Seq<u8>)
    requires
        forall|i: int| 0 <= i < g.len() ==> g[i] != 27 && g[i] != 10,
        forall|i: int| 0 <= i < dr.len() ==> 48 <= #[trigger] dr[i] <= 57,
        forall|i: int| 0 <= i < dg.len() ==> 48 <= #[trigger] dg[i] <= 57,
        forall|i: int| 0 <= i < db.len() ==> 48 <= #[trigger] db[i] <= 57,
    ensures
        ({
            let px = FG_PREFIX@ + dr + seq![59u8] + dg + seq![59u8] + db + seq![109u8] + g + RESET@;
            &&& unescape_from((o, false), px) == (o + g, false)
            &&& forall|k: int| 0 <= k < px.len() ==> #[trigger] px[k] != 10
            &&& px.len() > 0 && px.last() == 109
        }),
{
    let px = FG_PREFIX@ + dr + seq![59u8] + dg + seq![59u8] + db + seq![109u8] + g + RESET@;
    let p1 = seq![27u8];
    let p2 = seq![91u8, 51u8, 56u8, 59u8, 50u8, 59u8] + dr + seq![59u8] + dg + seq![59u8] + db;
    let p3 = seq![109u8];
    let p4 = seq![27u8];
    let p5 = seq![91u8, 48u8];
    let p6 = seq![109u8];
    assert(px =~= p1 + p2 + p3 + g + p4 + p5 + p6);
    assert forall|k: int| 0 <= k < p2.len() implies p2[k] != 27 && p2[k] != 109 && p2[k] != 10 by {
        if k < 6 {
        } else if k < 6 + dr.len() {
            assert(p2[k] == dr[k - 6]);
        } else if k == 6 + dr.len() {
        } else if k < 7 + dr.len() + dg.len() {
            assert(p2[k] == dg[k - 7 - dr.len()]);
        } else if k == 7 + dr.len() + dg.len() {
        } else {
            assert(p2[k] == db[k - 8 - dr.len() - dg.len()]);
        }
    }
    let s0 = (o, false);
    assert(unescape_from(s0, p1 + p2 + p3 + g + p4 + p5 + p6) == (o + g, false)) by {
        reveal_with_fuel(unescape_from, 2);
        lemma_unescape_concat(s0, p1 + p2 + p3 + g + p4 + p5, p6);
        lemma_unescape_concat(s0, p1 + p2 + p3 + g + p4, p5);
        lemma_unescape_concat(s0, p1 + p2 + p3 + g, p4);
        lemma_unescape_concat(s0, p1 + p2 + p3, g);
        lemma_unescape_concat(s0, p1 + p2, p3);
        lemma_unescape_concat(s0, p1, p2);
        assert(unescape_from(s0, p1) == (o, true));
        lemma_unescape_inside((o, true), p2);
        assert(unescape_from((o, true), p3) == (o, false));
        lemma_unescape_plain(o, g);
        assert(unescape_from((o + g, false), p4) == (o + g, true));
        lemma_unescape_inside((o + g, true), p5);
        assert(unescape_from((o + g, true), p6) == (o + g, false));
    }
    assert forall|k: int| 0 <= k < px.len() implies #[trigger] px[k] != 10 by {
        let a = p1.len();
        let b = a + p2.len();
        let c = b + 1;
        let d = c + g.len();
        if k < a {
        } else if k < b {
            assert(px[k] == p2[k - a]);
        } else if k < c {
        } else if k < d {
            assert(px[k] == g[k - c]);
        } else {
            assert(px[k] == (p4 + p5 + p6)[k - d]);
        }
    }
}

/// A pixel's bytes hold no newline and do not end in a carriage return;
/// without its colour codes a pixel is just its glyph.
#[verifier::rlimit(30)]
proof fn lemma_pixel_unescape(rgb: Seq<u8>, gray: Seq<u8>, w: int, x: int, y: int, use_rgb: bool, o: Seq<u8>)
    ensures
        unescape_from((o, false), pixel_bytes(rgb, gray, w, x, y, use_rgb)) == (o + pixel_bytes(rgb, gray, w, x, y, false), false),
        forall|i: int| 0 <= i < pixel_bytes(rgb, gray, w, x, y, use_rgb).len() ==> #[trigger] pixel_bytes(rgb, gray, w, x, y, use_rgb)[i] != 10,
        pixel_bytes(rgb, gray, w, x, y, use_rgb).len() > 0,
        pixel_bytes(rgb, gray, w, x, y, use_rgb).last() != 13,
{
    let i = y * w + x;
    let ch = spec_luma(gray[i]) as u8;
    lemma_glyph_printable(gray[i]);
    let plain = pixel_bytes(rgb, gray, w, x, y, false);
    assert(plain =~= seq![ch]);
    lemma_unescape_plain(o, seq![ch]);
    if use_rgb {
        lemma_decimal_digits(rgb[3 * i] as nat);
        lemma_decimal_digits(rgb[3 * i + 1] as nat);
        lemma_decimal_digits(rgb[3 * i + 2] as nat);
        lemma_colored_glyph(o, seq![ch], decimal(rgb[3 * i] as nat), decimal(rgb[3 * i + 1] as nat), decimal(rgb[3 * i + 2] as nat));
    }
}

/// A row of pixels holds no newline, does not end in a carriage return,
/// and without its colour codes it is the row of glyphs.
proof fn lemma_row_unescape(rgb: Seq<u8>, gray: Seq<u8>, w: int, y: int, use_rgb: bool, n: nat)
    ensures
        unescape(pixels_upto(rgb, gray, w, y, use_rgb, n)) == (pixels_upto(rgb, gray, w, y, false, n), false),
        forall|i: int| 0 <= i < pixels_upto(rgb, gray, w, y, use_rgb, n).len() ==> #[trigger] pixels_upto(rgb, gray, w, y, use_rgb, n)[i] != 10,
        without_cr(pixels_upto(rgb, gray, w, y, use_rgb, n)) == pixels_upto(rgb, gray, w, y, use_rgb, n),
    decreases n,
{
    if n > 0 {
        let m = (n - 1) as nat;
        lemma_row_unescape(rgb, gray, w, y, use_rgb, m);
        let before = pixels_upto(rgb, gray, w, y, use_rgb, m);
        let px = pixel_bytes(rgb, gray, w, m as int, y, use_rgb);
        lemma_unescape_concat((seq![], false), before, px);
        lemma_pixel_unescape(rgb, gray, w, m as int, y, use_rgb, pixels_upto(rgb, gray, w, y, false, m));
        let row = pixels_upto(rgb, gray, w, y, use_rgb, n);
        assert(row == before + px);
        assert forall|i: int| 0 <= i < row.len() implies #[trigger] row[i] != 10 by {
            if i < before.len() {
                assert(row[i] == before[i]);
            } else {
                assert(row[i] == px[i - before.len()]);
            }
        }
        assert(row.last() == px.last());
    }
}

/// The rows of `n` rows of art, in order.
pub open spec fn art_rows(rgb: Seq<u8>, gray: Seq<u8>, w: int, use_rgb: bool, n: nat) -> Seq<Seq<u8>> {
    Seq::new(n, |k: int| pixels_upto(rgb, gray, w, k, use_rgb, w as nat))
}

/// Art splits at its newlines into its rows, then an empty piece.
#[verifier::spinoff_prover]
#[verifier::rlimit(30)]
proof fn lemma_art_pieces(rgb: Seq<u8>, gray: Seq<u8>, w: int, use_rgb: bool, n: nat)
    ensures
        split_on(art_upto(rgb, gray, w, use_rgb, n), 10u8) == art_rows(rgb, gray, w, use_rgb, n).push(seq![]),
    decreases n,
{
    if n == 0 {
        assert(art_rows(rgb, gray, w, use_rgb, 0).push(seq![]) =~= seq![seq![]]);
    } else {
        let m = (n - 1) as nat;
        lemma_art_pieces(rgb, gray, w, use_rgb, m);
        let before = art_upto(rgb, gray, w, use_rgb, m);
        let row = pixels_upto(rgb, gray, w, m as int, use_rgb, w as nat);
        lemma_row_unescape(rgb, gray, w, m as int, use_rgb, w as nat);
        lemma_split_append(before, row, 10u8);
        let p = split_on(before, 10u8);
        assert(p.last() + row =~= row);
        assert(split_on(before + row, 10u8) == art_rows(rgb, gray, w, use_rgb, n).drop_last().push(row)) by {
            assert(art_rows(rgb, gray, w, use_rgb, n).drop_last() =~= art_rows(rgb, gray, w, use_rgb, m));
        }
        assert(art_upto(rgb, gray, w, use_rgb, n) =~= (before + row).push(10u8));
        assert((before + row).push(10u8).drop_last() =~= before + row);
        assert(art_rows(rgb, gray, w, use_rgb, n).drop_last().push(row) =~= art_rows(rgb, gray, w, use_rgb, n));
        lemma_split_nonempty(before + row, 10u8);
    }
}

/// The plain lines of `n` rows of art, concatenated, are the plain art.
#[verifier::rlimit(30)]
proof fn lemma_plain_rows(rgb: Seq<u8>, gray: Seq<u8>, w: int, use_rgb: bool, n: nat)
    ensures
        concat_rows(art_rows(rgb, gray, w, use_rgb, n).map_values(|l: Seq<u8>| plain_line(l, true)))
            == art_upto(rgb, gray, w, false, n),
    decreases n,
{
    let lines = art_rows(rgb, gray, w, use_rgb, n).map_values(|l: Seq<u8>| plain_line(l, true));
    if n == 0 {
        assert(lines =~= seq![]);
    } else {
        let m = (n - 1) as nat;
        lemma_plain_rows(rgb, gray, w, use_rgb, m);
        assert(lines.drop_last() =~= art_rows(rgb, gray, w, use_rgb, m).map_values(|l: Seq<u8>| plain_line(l, true)));
        lemma_row_unescape(rgb, gray, w, m as int, use_rgb, w as nat);
        assert(lines.last() == plain_line(pixels_upto(rgb, gray, w, m as int, use_rgb, w as nat), true));
    }
}

/// Saving art as plain text gives the grayscale art: the colour codes of
/// coloured art are removed exactly, and plain art is saved unchanged (for
/// art of at least one row).
pub proof fn lemma_plain_text_of_art(rgb: Seq<u8>, gray: Seq<u8>, w: int, h: nat, use_rgb: bool)
    requires
        h > 0,
    ensures
        spec_plain_text(art_upto(rgb, gray, w, use_rgb, h)) == art_upto(rgb, gray, w, false, h),
{
    lemma_art_pieces(rgb, gray, w, use_rgb, h);
    lemma_plain_rows(rgb, gray, w, use_rgb, h);
    let pieces = split_on(art_upto(rgb, gray, w, use_rgb, h), 10u8);
    assert(pieces.drop_last() =~= art_rows(rgb, gray, w, use_rgb, h));
}

/// Without its colour codes, a coloured Braille cell is the plain cell.
proof fn lemma_cell_unescape(rgb: Seq<u8>, gray: Seq<u8>, bw: int, row: int, col: int, use_rgb: bool, o: Seq<u8>)
    ensures
        unescape_from((o, false), cell_bytes(rgb, gray, bw, row, col, use_rgb)) == (o + cell_bytes(rgb, gray, bw, row, col, false), false),
{
    let d = cell_dots(gray, bw, row, col);
    lemma_cell_dots_decode(gray, bw, row, col, 0);
    lemma_braille_bytes(d);
    let g = braille_bytes(d);
    assert forall|i: int| 0 <= i < g.len() implies g[i] != 27 && g[i] != 10 by {
        assert(g[i] >= 0x80);
    }
    lemma_unescape_plain(o, g);
    if use_rgb {
        lemma_decimal_digits(cell_mean(rgb, bw, row, col, 0) as nat);
        lemma_decimal_digits(cell_mean(rgb, bw, row, col, 1) as nat);
        lemma_decimal_digits(cell_mean(rgb, bw, row, col, 2) as nat);
        lemma_colored_glyph(
            o,
            g,
            decimal(cell_mean(rgb, bw, row, col, 0) as nat),
            decimal(cell_mean(rgb, bw, row, col, 1) as nat),
            decimal(cell_mean(rgb, bw, row, col, 2) as nat),
        );
    }
}

proof fn lemma_cells_unescape(rgb: Seq<u8>, gray: Seq<u8>, bw: int, row: int, use_rgb: bool, n: nat)
    ensures
        unescape(cells_upto(rgb, gray, bw, row, use_rgb, n)) == (cells_upto(rgb, gray, bw, row, false, n), false),
    decreases n,
{
    if n > 0 {
        let m = (n - 1) as nat;
        lemma_cells_unescape(rgb, gray, bw, row, use_rgb, m);
        lemma_unescape_concat((seq![], false), cells_upto(rgb, gray, bw, row, use_rgb, m), cell_bytes(rgb, gray, bw, row, m as int, use_rgb));
        lemma_cell_unescape(rgb, gray, bw, row, m as int, use_rgb, cells_upto(rgb, gray, bw, row, false, m));
    }
}

/// Removing the colour codes from a coloured Braille row gives the plain
/// row: the same characters, newline included.
pub proof fn lemma_plain_braille_row(rgb: Seq<u8>, gray: Seq<u8>, bw: int, row: int)
    ensures
        unescape(braille_row(rgb, gray, bw, row, true)) == (braille_row(rgb, gray, bw, row, false), false),
{
    let c = (bw / 2) as nat;
    lemma_cells_unescape(rgb, gray, bw, row, true, c);
    let coloured = cells_upto(rgb, gray, bw, row, true, c);
    lemma_unescape_concat((seq![], false), coloured, seq![10u8]);
    lemma_unescape_plain(cells_upto(rgb, gray, bw, row, false, c), seq![10u8]);
    assert(coloured.push(10u8) =~= coloured + seq![10u8]);
    assert(cells_upto(rgb, gray, bw, row, false, c).push(10u8) =~= cells_upto(rgb, gray, bw, row, false, c) + seq![10u8]);
}

} // verus!
