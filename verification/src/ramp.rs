use vstd::prelude::*;

verus! {

/// Number of characters on the brightness ramp.
pub const RAMP_LEN: usize = 70;

/// The density ramp, from the lightest glyph (a space) to the densest (`$`).
pub const RAMP: [char; 70] = [
    ' ', '.', '\'', '`', '^', '"', ',', ':', ';', 'I', 'l', '!', 'i', '>', '<', '~', '+', '_', '-', '?',
    ']', '[', '}', '{', '1', ')', '(', '|', '\\', '/', 't', 'f', 'j', 'r', 'x', 'n', 'u', 'v', 'c',
    'z', 'X', 'Y', 'U', 'J', 'C', 'L', 'Q', '0', 'O', 'Z', 'm', 'w', 'q', 'p', 'd', 'b', 'k', 'h',
    'a', 'o', '*', '#', 'M', 'W', '&', '8', '%', 'B', '@', '$',
];

/// Position on the ramp of a brightness value: brightness is scaled linearly
/// onto the ramp's indices, rounding down.
pub open spec fn ramp_index(v: u8) -> int {
    (v as int * (RAMP_LEN as int - 1)) / 255
}

/// The glyph that stands for brightness `v`.
pub open spec fn spec_luma(v: u8) -> char {
    RAMP@[ramp_index(v)]
}

/// Maps a brightness value (0 = dark, 255 = bright) to its glyph on the ramp.
pub fn luma(v: u8) -> (c: char)
    ensures
        c == spec_luma(v),
{
    assert(v * (RAMP_LEN - 1) <= 255 * 69) by (nonlinear_arith)
        requires
            v <= 255,
            RAMP_LEN == 70,
    ;
    let scaled: usize = v as usize * (RAMP_LEN - 1);
    let i: usize = scaled / 255;
    assert(0 <= ramp_index(v) < RAMP_LEN) by (nonlinear_arith)
        requires
            0 <= v <= 255,
    ;
    RAMP[i]
}

/// Brighter values never map to a lighter glyph: the ramp position is
/// monotone in brightness, it starts at the first glyph and ends at the last.
pub proof fn lemma_luma_monotone(a: u8, b: u8)
    requires
        a <= b,
    ensures
        0 <= ramp_index(a) <= ramp_index(b) < RAMP_LEN,
        ramp_index(0) == 0,
        ramp_index(255) == RAMP_LEN - 1,
{
    assert(0 <= ramp_index(a) <= ramp_index(b) < RAMP_LEN) by (nonlinear_arith)
        requires
            a <= b,
            b <= 255,
            0 <= a,
    ;
}


/// The glyphs that some brightness value maps to.
pub open spec fn luma_glyphs() -> Set<char> {
    Set::new(|c: char| exists|v: u8| #[trigger] spec_luma(v) == c)
}

/// A brightness value that lands on ramp position `i`: the smallest one,
/// `i * 255 / 69` rounded up.
pub open spec fn level_start(i: int) -> u8 {
    ((i * 255 + 68) / 69) as u8
}

/// No glyph occurs twice on the ramp.
pub proof fn lemma_ramp_distinct()
    ensures
        RAMP@.len() == RAMP_LEN,
        RAMP@.no_duplicates(),
{
}

/// The ramp has seventy levels: every one of its seventy glyphs is the glyph
/// of some brightness value, and the brightness values give no other glyph,
/// so exactly seventy distinct glyphs come out.
pub proof fn lemma_ramp_levels()
    ensures
        forall|i: int| 0 <= i < RAMP_LEN ==> ramp_index(#[trigger] level_start(i)) == i,
        luma_glyphs() == RAMP@.to_set(),
        luma_glyphs().len() == RAMP_LEN,
{
    assert forall|i: int| 0 <= i < RAMP_LEN implies ramp_index(#[trigger] level_start(i)) == i by {
        assert(0 <= (i * 255 + 68) / 69 <= 255) by (nonlinear_arith)
            requires
                0 <= i < 70,
        ;
        let v: int = (i * 255 + 68) / 69;
        assert(v * 69 / 255 == i) by (nonlinear_arith)
            requires
                0 <= i < 70,
                v == (i * 255 + 68) / 69,
        ;
    }
    assert forall|c: char| luma_glyphs().contains(c) <==> RAMP@.to_set().contains(c) by {
        if luma_glyphs().contains(c) {
            let v: u8 = choose|v: u8| #[trigger] spec_luma(v) == c;
            lemma_luma_monotone(v, v);
            assert(RAMP@.contains(c));
        }
        if RAMP@.to_set().contains(c) {
            let i: int = choose|i: int| 0 <= i < RAMP@.len() && RAMP@[i] == c;
            assert(ramp_index(level_start(i)) == i);
            assert(spec_luma(level_start(i)) == c);
        }
    }
    assert(luma_glyphs() =~= RAMP@.to_set());
    lemma_ramp_distinct();
    RAMP@.unique_seq_to_set();
}

/// Every glyph of the ramp is a printable ASCII character.
pub proof fn lemma_ramp_printable(i: int)
    requires
        0 <= i < RAMP_LEN,
    ensures
        32 <= RAMP@[i] as u32 <= 126,
{
}

} // verus!
