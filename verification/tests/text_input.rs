use visterm::choices::{
    default_output_name, heavy_color, is_yes, menu_choice, output_path, picks_second, resolution_for,
    save_colored, unquote, wants_color, MenuChoice,
};
use visterm::picture::{resize_picture, rgb_triples, Picture};
use visterm::probe::parse_probe;
use visterm::text::{chars_of, parse_bounded, strip_bounds};
use visterm::ui::{banner_fill, bin_candidates, pick_installed, progress};

#[test]
fn probe_reply_with_ratio() {
    let p = parse_probe("1920,1080,30000/1001,240\n").unwrap();
    assert_eq!(p.width, 1920);
    assert_eq!(p.height, 1080);
    assert_eq!(p.rate_num, "30000");
    assert_eq!(p.rate_den.as_deref(), Some("1001"));
    assert_eq!(p.frames, 240);
}

#[test]
fn probe_reply_without_count() {
    let p = parse_probe("  640,480,25\r\n").unwrap();
    assert_eq!((p.width, p.height), (640, 480));
    assert_eq!(p.rate_num, "25");
    assert_eq!(p.rate_den, None);
    assert_eq!(p.frames, 0);
    let p = parse_probe("+5,6,7,N/A").unwrap();
    assert_eq!((p.width, p.height, p.frames), (5, 6, 0));
    let p = parse_probe("1,2,3/4/5,,").unwrap();
    assert_eq!(p.rate_num, "3");
    assert_eq!(p.rate_den.as_deref(), Some("4/5"));
    assert_eq!(p.frames, 0);
}

#[test]
fn probe_reply_rejected() {
    assert!(parse_probe("").is_none());
    assert!(parse_probe("1,2").is_none());
    assert!(parse_probe("abc,1,2").is_none());
    assert!(parse_probe("4294967296,1,1").is_none());
    assert!(parse_probe("-1,1,1").is_none());
    assert!(parse_probe("1,,1").is_none());
    assert!(parse_probe("4294967295,0,x").is_some());
}

#[test]
fn unsigned_reading_matches_std() {
    for s in ["0", "42", "+7", "+", "", "-0", "007", "4294967295", "4294967296", "1a", " 1", "18446744073709551615", "18446744073709551616"] {
        let cs = chars_of(s);
        assert_eq!(parse_bounded(&cs, u32::MAX as u64), s.parse::<u32>().ok().map(u64::from), "{s:?}");
        assert_eq!(parse_bounded(&cs, u64::MAX), s.parse::<u64>().ok(), "{s:?}");
    }
}

#[test]
fn trimming_matches_std() {
    for s in ["", "   ", " a b ", "\u{a0}x\u{3000}", "\t\n1,2\r\n", "\u{200b}x"] {
        let cs = chars_of(s);
        let (a, b) = strip_bounds(&cs, true, ' ');
        let got: String = cs[a..b].iter().collect();
        assert_eq!(got, s.trim(), "{s:?}");
    }
    assert_eq!(unquote("\"C:\\My Videos\\clip.mp4\""), "C:\\My Videos\\clip.mp4");
    assert_eq!(unquote("\"\"x\"\""), "x");
    assert_eq!(unquote("\"\""), "");
}

#[test]
fn menu_answers() {
    assert_eq!(menu_choice("1"), MenuChoice::Image);
    assert_eq!(menu_choice("2"), MenuChoice::Snake);
    assert_eq!(menu_choice("3"), MenuChoice::Video);
    assert_eq!(menu_choice("0"), MenuChoice::Exit);
    assert_eq!(menu_choice("4"), MenuChoice::Invalid);
    assert_eq!(menu_choice("11"), MenuChoice::Invalid);
    assert_eq!(resolution_for("1"), 120);
    assert_eq!(resolution_for("2"), 200);
    assert_eq!(resolution_for("3"), 300);
    assert_eq!(resolution_for("4"), 400);
    assert_eq!(resolution_for("5"), 500);
    assert_eq!(resolution_for("6"), 600);
    assert_eq!(resolution_for("9"), 300);
    assert_eq!(resolution_for(""), 300);
    assert!(wants_color("1"));
    assert!(wants_color(""));
    assert!(!wants_color("2"));
    assert!(picks_second("2"));
    assert!(!picks_second("1"));
    assert!(is_yes("y"));
    assert!(is_yes("Y"));
    assert!(!is_yes("yes"));
    assert!(save_colored("2"));
    assert!(!save_colored("1"));
    assert!(!save_colored(""));
    assert_eq!(default_output_name("pic", save_colored("2")), "pic_color.ans");
}

#[test]
fn output_names() {
    assert_eq!(default_output_name("photo", true), "photo_color.ans");
    assert_eq!(default_output_name("photo", false), "photo_ascii.txt");
    assert_eq!(output_path(String::new(), "a.txt".to_string()), "a.txt");
    assert_eq!(output_path("b.txt".to_string(), "a.txt".to_string()), "b.txt");
}

#[test]
fn progress_and_banner() {
    assert_eq!(progress(30, 60), (50, 10));
    assert_eq!(progress(5, 0), (100, 20));
    assert_eq!(progress(0, 10), (0, 0));
    assert_eq!(progress(99, 100), (99, 19));
    assert_eq!(banner_fill("RESOLUTION"), 50);
    assert_eq!(banner_fill(&"é".repeat(70)), 0);
    let title = "STATE 1  ─  IMAGE → ASCII ART  🎨";
    let inner = format!("╡ {title} ╞");
    assert_eq!(banner_fill(title), 64usize.saturating_sub(inner.chars().count()));
}

#[test]
fn install_places() {
    let v = bin_candidates("ffmpeg", "C:\\Users\\me");
    assert_eq!(
        v,
        vec![
            "C:\\Users\\me\\AppData\\Local\\Microsoft\\WinGet\\Links\\ffmpeg.exe".to_string(),
            "C:\\ffmpeg\\bin\\ffmpeg.exe".to_string(),
            "C:\\Program Files\\ffmpeg\\bin\\ffmpeg.exe".to_string(),
            "C:\\ProgramData\\chocolatey\\bin\\ffmpeg.exe".to_string(),
        ]
    );
}

#[test]
fn resize_nearest_picks_pixels() {
    let p = Picture {
        width: 2,
        height: 1,
        rgba: vec![10, 20, 30, 255, 200, 210, 220, 255],
    };
    let q = resize_picture(&p, 1, 1);
    assert_eq!((q.width, q.height), (1, 1));
    assert_eq!(q.rgba.len(), 4);
    assert!(q.rgba == vec![10, 20, 30, 255] || q.rgba == vec![200, 210, 220, 255]);
    let empty = Picture { width: 0, height: 0, rgba: Vec::new() };
    let e = resize_picture(&empty, 3, 2);
    assert_eq!(e.rgba.len(), 3 * 2 * 4);
    let none = resize_picture(&p, 5, 0);
    assert_eq!(none.rgba.len(), 0);
    let same = resize_picture(&p, 2, 1);
    assert_eq!(same.rgba, p.rgba);
    let wide = resize_picture(&p, 4, 2);
    assert_eq!(wide.rgba.len(), 4 * 4 * 2);
    assert_eq!(&wide.rgba[0..4], &[10, 20, 30, 255]);
    assert_eq!(&wide.rgba[12..16], &[200, 210, 220, 255]);
    assert_eq!(rgb_triples(&p), vec![10, 20, 30, 200, 210, 220]);
}

#[test]
fn installed_program_choice() {
    let c = bin_candidates("ffplay", "C:\\Users\\me");
    assert_eq!(pick_installed("ffplay", true, &c, &vec![true, true, true, true]), "ffplay");
    assert_eq!(pick_installed("ffplay", false, &c, &vec![false, false, false, false]), "ffplay");
    assert_eq!(pick_installed("ffplay", false, &c, &vec![false, true, true, false]), c[1]);
    assert_eq!(pick_installed("ffplay", false, &c, &vec![true, false, false, true]), c[0]);
}

#[test]
fn heavy_colour_warning() {
    assert!(heavy_color(400, true));
    assert!(heavy_color(600, true));
    assert!(!heavy_color(300, true));
    assert!(!heavy_color(500, false));
}
