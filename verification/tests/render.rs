use visterm::art::{plain_text, render_ascii};
use visterm::braille::to_braille;
use visterm::ramp::luma;

const DOT: [[u8; 2]; 4] = [[0x01, 0x08], [0x02, 0x10], [0x04, 0x20], [0x40, 0x80]];

fn gray_of(r: u8, g: u8, b: u8) -> u8 {
    (0.299 * r as f32 + 0.587 * g as f32 + 0.114 * b as f32) as u8
}

fn grays(buf: &[u8]) -> Vec<u8> {
    buf.chunks(3).map(|p| gray_of(p[0], p[1], p[2])).collect()
}

/// A straightforward renderer written without the library, luminance in floating point.
fn naive_braille(buf: &[u8], bw: u32, bh: u32, use_rgb: bool) -> Vec<Vec<u8>> {
    let (cols, rows) = ((bw / 2) as usize, (bh / 4) as usize);
    let mut out = Vec::with_capacity(rows);
    for row in 0..rows {
        let mut line = Vec::new();
        for col in 0..cols {
            let (mut dots, mut rs, mut gs, mut bs, mut cnt) = (0u8, 0u32, 0u32, 0u32, 0u32);
            for dy in 0u32..4 {
                for dx in 0u32..2 {
                    let (px, py) = ((col as u32 * 2 + dx) as usize, (row as u32 * 4 + dy) as usize);
                    if px < bw as usize && py < bh as usize {
                        let o = (py * bw as usize + px) * 3;
                        let (r, g, b) = (buf[o], buf[o + 1], buf[o + 2]);
                        let lm = (0.299 * r as f32 + 0.587 * g as f32 + 0.114 * b as f32) as u8;
                        if lm < 128 {
                            dots |= DOT[dy as usize][dx as usize];
                        }
                        rs += r as u32;
                        gs += g as u32;
                        bs += b as u32;
                        cnt += 1;
                    }
                }
            }
            let ch = char::from_u32(0x2800 + u32::from(dots)).unwrap_or(' ');
            if use_rgb && cnt > 0 {
                let (r, g, b) = (rs / cnt, gs / cnt, bs / cnt);
                line.extend_from_slice(format!("\x1b[38;2;{r};{g};{b}m{ch}\x1b[0m").as_bytes());
            } else {
                let mut tmp = [0u8; 4];
                line.extend_from_slice(ch.encode_utf8(&mut tmp).as_bytes());
            }
        }
        line.push(b'\n');
        out.push(line);
    }
    out
}

fn pseudo_random_pixels(n: usize, mut s: u64) -> Vec<u8> {
    (0..n * 3)
        .map(|_| {
            s ^= s << 13;
            s ^= s >> 7;
            s ^= s << 17;
            (s >> 24) as u8
        })
        .collect()
}

#[test]
fn braille_full_cell() {
    let buf = vec![0u8; 2 * 4 * 3];
    let out = to_braille(&buf, &grays(&buf), 2, 4, false);
    assert_eq!(out, vec!["\u{28FF}\n".as_bytes().to_vec()]);
    let out = to_braille(&buf, &grays(&buf), 2, 4, true);
    assert_eq!(out, vec!["\x1b[38;2;0;0;0m\u{28FF}\x1b[0m\n".as_bytes().to_vec()]);
}

#[test]
fn braille_single_dot() {
    let mut buf = vec![255u8; 2 * 4 * 3];
    buf[0] = 0;
    buf[1] = 0;
    buf[2] = 0;
    let out = to_braille(&buf, &grays(&buf), 2, 4, false);
    assert_eq!(out, vec!["\u{2801}\n".as_bytes().to_vec()]);
    // bottom-right pixel raises dot 8
    let mut buf = vec![255u8; 2 * 4 * 3];
    let o = (3 * 2 + 1) * 3;
    buf[o] = 10;
    buf[o + 1] = 10;
    buf[o + 2] = 10;
    let out = to_braille(&buf, &grays(&buf), 2, 4, true);
    assert_eq!(out, vec!["\x1b[38;2;224;224;224m\u{2880}\x1b[0m\n".as_bytes().to_vec()]);
}

#[test]
fn braille_drops_partial_cells_and_matches_naive() {
    for (bw, bh) in [(7u32, 9u32), (2, 3), (1, 8), (10, 4), (16, 12)] {
        let buf = pseudo_random_pixels((bw * bh) as usize, 0x1234 + bw as u64);
        for rgb in [false, true] {
            let got = to_braille(&buf, &grays(&buf), bw, bh, rgb);
            assert_eq!(got, naive_braille(&buf, bw, bh, rgb));
            assert_eq!(got.len(), (bh / 4) as usize);
        }
    }
}

/// A straightforward text art renderer written without the library.
fn naive_ascii(px: &[u8], w: u32, h: u32, use_rgb: bool) -> String {
    let mut art = String::new();
    for y in 0..h {
        for x in 0..w {
            let i = ((y * w + x) * 3) as usize;
            let (r, g, b) = (px[i], px[i + 1], px[i + 2]);
            let ch = luma(gray_of(r, g, b));
            if use_rgb {
                art.push_str(&format!("\x1b[38;2;{r};{g};{b}m{ch}\x1b[0m"));
            } else {
                art.push(ch);
            }
        }
        art.push('\n');
    }
    art
}

#[test]
fn ascii_matches_naive() {
    let (w, h) = (9u32, 5u32);
    let px = pseudo_random_pixels((w * h) as usize, 77);
    for rgb in [false, true] {
        let got = render_ascii(&px, &grays(&px), w, h, rgb);
        assert_eq!(String::from_utf8(got).unwrap(), naive_ascii(&px, w, h, rgb));
    }
}

#[test]
fn ascii_exact_small() {
    let px = vec![0, 0, 0, 255, 255, 255];
    let got = render_ascii(&px, &grays(&px), 2, 1, false);
    assert_eq!(got, b" $\n".to_vec());
    let got = render_ascii(&px, &grays(&px), 1, 2, true);
    assert_eq!(
        String::from_utf8(got).unwrap(),
        "\x1b[38;2;0;0;0m \x1b[0m\n\x1b[38;2;255;255;255m$\x1b[0m\n"
    );
}

fn naive_plain(art: &str) -> String {
    art.lines()
        .map(|l| {
            let mut s = String::new();
            let mut esc = false;
            for c in l.chars() {
                if c == '\x1b' {
                    esc = true;
                    continue;
                }
                if esc {
                    if c == 'm' {
                        esc = false;
                    }
                    continue;
                }
                s.push(c);
            }
            s
        })
        .collect::<Vec<_>>()
        .join("\n")
        + "\n"
}

#[test]
fn plain_text_strips_colour_codes() {
    let art = "\x1b[38;2;1;2;3ma\x1b[0m\x1b[38;2;4;5;6mb\x1b[0m\nc\r\n".as_bytes().to_vec();
    assert_eq!(plain_text(&art), b"ab\nc\n".to_vec());
    assert_eq!(plain_text(&Vec::new()), b"\n".to_vec());
    assert_eq!(plain_text(&b"x".to_vec()), b"x\n".to_vec());
    for s in ["", "\n", "a\n\n", "a\x1bzzm b\n\x1b[1", "\u{2801}\x1b[0m\u{28ff}\n", "\r\n\r", "m\x1bm"] {
        assert_eq!(String::from_utf8(plain_text(&s.as_bytes().to_vec())).unwrap(), naive_plain(s), "{s:?}");
    }
    let (w, h) = (6u32, 4u32);
    let px = pseudo_random_pixels((w * h) as usize, 5);
    let art = naive_ascii(&px, w, h, true);
    assert_eq!(
        String::from_utf8(plain_text(&art.as_bytes().to_vec())).unwrap(),
        naive_plain(&art)
    );
}

#[test]
fn saving_coloured_art_as_plain_gives_grayscale_art() {
    for (w, h) in [(5u32, 3u32), (0, 2), (1, 1)] {
        let px = pseudo_random_pixels((w * h) as usize, 9 + w as u64);
        let g = grays(&px);
        let coloured = render_ascii(&px, &g, w, h, true);
        let plain = render_ascii(&px, &g, w, h, false);
        assert_eq!(plain_text(&coloured), plain);
        assert_eq!(plain_text(&plain), plain);
    }
}

fn strip_codes(line: &[u8]) -> Vec<u8> {
    let mut out = Vec::new();
    let mut esc = false;
    for &b in line {
        if b == 27 {
            esc = true;
        } else if esc {
            if b == b'm' {
                esc = false;
            }
        } else {
            out.push(b);
        }
    }
    out
}

#[test]
fn braille_colour_codes_strip_to_plain_rows() {
    let (bw, bh) = (9u32, 13u32);
    let buf = pseudo_random_pixels((bw * bh) as usize, 31);
    let coloured = to_braille(&buf, &grays(&buf), bw, bh, true);
    let plain = to_braille(&buf, &grays(&buf), bw, bh, false);
    for (c, p) in coloured.iter().zip(plain.iter()) {
        assert_eq!(&strip_codes(c), p);
    }
}

#[test]
fn braille_ignores_pixels_outside_whole_cells() {
    let (bw, bh) = (5u32, 7u32);
    let a = pseudo_random_pixels((bw * bh) as usize, 3);
    let mut b = a.clone();
    for y in 0..bh {
        for x in 0..bw {
            if x >= 4 || y >= 4 {
                let o = ((y * bw + x) * 3) as usize;
                b[o] = b[o].wrapping_add(99);
                b[o + 1] = 7;
                b[o + 2] = 200;
            }
        }
    }
    for rgb in [false, true] {
        assert_eq!(to_braille(&a, &grays(&a), bw, bh, rgb), to_braille(&b, &grays(&b), bw, bh, rgb));
    }
    assert!(to_braille(&a, &grays(&a), bw, 3, true).is_empty());
}

#[test]
fn darker_pixels_raise_more_dots() {
    let (bw, bh) = (2u32, 4u32);
    let light = pseudo_random_pixels(8, 11);
    let dark: Vec<u8> = light.iter().map(|v| v / 2).collect();
    let dots = |buf: &[u8]| {
        let row = &to_braille(buf, &grays(buf), bw, bh, false)[0];
        let c = std::str::from_utf8(row).unwrap().chars().next().unwrap();
        c as u32 - 0x2800
    };
    assert_eq!(dots(&light) & !dots(&dark), 0);
}
