use visterm::frames::{count_keys, encode_frames, frame_bytes, Frame};
use visterm::keys::KeyPress;
use visterm::player::{Player, PlayerAction, PlayerStep};

fn rows(v: &[&str]) -> Vec<Vec<u8>> {
    v.iter().map(|s| s.as_bytes().to_vec()).collect()
}

/// Shows a frame on a screen of rows, as the playback loop draws it.
fn show(screen: &mut Vec<Vec<u8>>, f: &Frame) {
    match f {
        Frame::Key(r) => *screen = r.clone(),
        Frame::Delta(d) => {
            for (i, r) in d {
                if *i < screen.len() {
                    screen[*i] = r.clone();
                } else {
                    screen.push(r.clone());
                }
            }
        }
    }
}

#[test]
fn first_frame_is_key_and_small_changes_are_deltas() {
    let frames = vec![
        rows(&["aa", "bb", "cc", "dd"]),
        rows(&["aa", "bX", "cc", "dd"]),
        rows(&["XX", "YY", "ZZ", "dd"]),
    ];
    let cache = encode_frames(frames.clone());
    assert_eq!(cache.len(), 3);
    assert!(matches!(&cache[0], Frame::Key(r) if *r == frames[0]));
    assert!(matches!(&cache[1], Frame::Delta(d) if *d == vec![(1usize, b"bX".to_vec())]));
    assert!(matches!(&cache[2], Frame::Key(r) if *r == frames[2]));
    assert_eq!(count_keys(&cache), 2);
}

#[test]
fn half_changed_stays_delta() {
    let frames = vec![rows(&["a", "b", "c", "d"]), rows(&["X", "Y", "c", "d"])];
    let cache = encode_frames(frames);
    assert!(matches!(&cache[1], Frame::Delta(d) if d.len() == 2));
    assert_eq!(count_keys(&cache), 1);
}

#[test]
fn unchanged_frame_is_empty_delta() {
    let frames = vec![rows(&["a", "b"]), rows(&["a", "b"])];
    let cache = encode_frames(frames);
    assert!(matches!(&cache[1], Frame::Delta(d) if d.is_empty()));
}

#[test]
fn replay_restores_every_frame() {
    let mut s: u64 = 42;
    let mut frames: Vec<Vec<Vec<u8>>> = Vec::new();
    let mut cur = rows(&["....", "....", "....", "....", "...."]);
    for _ in 0..60 {
        s ^= s << 13;
        s ^= s >> 7;
        s ^= s << 17;
        let r = (s % 5) as usize;
        let c = ((s >> 8) % 4) as usize;
        cur[r][c] = b'a' + (s % 26) as u8;
        if s % 11 == 0 {
            for row in cur.iter_mut() {
                row[0] = b'#';
            }
        }
        if s % 13 == 0 {
            cur.push(b"new!".to_vec());
        }
        frames.push(cur.clone());
    }
    let cache = encode_frames(frames.clone());
    let mut screen: Vec<Vec<u8>> = Vec::new();
    for (k, f) in cache.iter().enumerate() {
        show(&mut screen, f);
        assert_eq!(screen, frames[k], "frame {k}");
    }
}

#[test]
fn frame_output_bytes() {
    let key = Frame::Key(rows(&["ab\n", "cd\n"]));
    assert_eq!(frame_bytes(&key), b"\x1b[Hab\ncd\n".to_vec());
    let delta = Frame::Delta(vec![(0, b"x\n".to_vec()), (11, b"yz\n".to_vec())]);
    assert_eq!(frame_bytes(&delta), b"\x1b[1;1Hx\n\x1b[12;1Hyz\n".to_vec());
    assert_eq!(frame_bytes(&Frame::Delta(Vec::new())), Vec::<u8>::new());
}

#[test]
fn player_runs_through_frames() {
    let mut p = Player::new(2);
    assert_eq!(p.step(), PlayerStep::Show(0));
    assert_eq!(p.on_key(KeyPress::Char(' ')), PlayerAction::Pause);
    assert_eq!(p.step(), PlayerStep::Paused);
    assert_eq!(p.step(), PlayerStep::Paused);
    assert_eq!(p.on_key(KeyPress::Char('x')), PlayerAction::Nothing);
    assert_eq!(p.on_key(KeyPress::Char(' ')), PlayerAction::Resume);
    assert_eq!(p.step(), PlayerStep::Show(1));
    assert_eq!(p.step(), PlayerStep::Finished);
}

#[test]
fn player_stops_on_quit() {
    let mut p = Player::new(5);
    assert_eq!(p.on_key(KeyPress::Char('q')), PlayerAction::Stop);
    assert_eq!(p.step(), PlayerStep::Finished);
    let mut p = Player::new(5);
    assert_eq!(p.on_key(KeyPress::Esc), PlayerAction::Stop);
    assert_eq!(p.step(), PlayerStep::Finished);
    let mut p = Player::new(5);
    assert_eq!(p.on_key(KeyPress::Char('Q')), PlayerAction::Stop);
    assert_eq!(p.step(), PlayerStep::Finished);
    let mut p = Player::new(5);
    assert_eq!(p.on_key(KeyPress::Char('w')), PlayerAction::Nothing);
    assert_eq!(p.step(), PlayerStep::Show(0));
}

#[test]
fn playback_shows_each_frame_once_in_order() {
    let mut p = Player::new(3);
    let mut seen = Vec::new();
    for _ in 0..5 {
        seen.push(p.step());
    }
    assert_eq!(
        seen,
        vec![
            PlayerStep::Show(0),
            PlayerStep::Show(1),
            PlayerStep::Show(2),
            PlayerStep::Finished,
            PlayerStep::Finished
        ]
    );
}
