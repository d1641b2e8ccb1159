use std::collections::VecDeque;
use visterm::keys::KeyPress;
use visterm::snake::{
    command_for, delay_ms, frame_width, grid_size, header_pad, is_replay, level, overlay_row,
    first_free_cell, snake_food, speed_bar, Cell, Command, Dir, Snake, Tick,
};

fn naive_xorshift(s: &mut u64) -> u64 {
    *s ^= *s << 13;
    *s ^= *s >> 7;
    *s ^= *s << 17;
    *s
}

fn naive_food(body: &VecDeque<(i16, i16)>, s: &mut u64, gw: i16, gh: i16) -> (i16, i16) {
    loop {
        let x = (naive_xorshift(s) % gw as u64) as i16;
        let y = (naive_xorshift(s) % gh as u64) as i16;
        if !body.contains(&(x, y)) {
            return (x, y);
        }
    }
}

fn body(s: &Snake) -> Vec<(i16, i16)> {
    s.body.iter().copied().collect()
}

#[test]
fn new_round_is_centred_heading_right() {
    let seed = 0xDEAD_CAFE_BEEF_1337u64;
    let s = Snake::new(20, 12, seed);
    assert_eq!(body(&s), vec![(10, 6), (9, 6), (8, 6)]);
    assert_eq!(s.dir, Dir::Right);
    assert_eq!(s.next_dir, Dir::Right);
    assert_eq!(s.score, 0);
    assert_eq!(s.best, 0);
    assert!(!s.paused);
    assert!(!s.over);
    let mut rs = seed;
    let expected = naive_food(&s.body, &mut rs, 20, 12);
    assert_eq!(s.food, Some(expected));
    assert_eq!(s.seed, rs);
}

#[test]
fn food_search_matches_naive_and_avoids_body() {
    let mut b: VecDeque<(i16, i16)> = VecDeque::new();
    for x in 0..10 {
        for y in 0..9 {
            b.push_back((x, y));
        }
    }
    for seed in [1u64, 7, 12345, 0xFFFF_FFFF_FFFF_FFFF] {
        let mut a = seed;
        let mut r = seed;
        let got = snake_food(&b, &mut a, 10, 10).unwrap();
        let want = naive_food(&b, &mut r, 10, 10);
        assert_eq!(got, want);
        assert_eq!(a, r);
        assert_eq!(got.1, 9);
    }
}

#[test]
fn tick_moves_one_cell_and_keeps_length() {
    let mut s = Snake::new(20, 12, 99);
    s.food = Some((0, 0));
    assert_eq!(s.tick(), Tick::Moved);
    assert_eq!(body(&s), vec![(11, 6), (10, 6), (9, 6)]);
    assert_eq!(s.score, 0);
}

#[test]
fn turning_back_is_ignored_but_turning_aside_is_taken() {
    let mut s = Snake::new(20, 12, 99);
    s.food = Some((0, 0));
    assert!(!s.handle_key(KeyPress::Left));
    assert_eq!(s.next_dir, Dir::Right);
    assert!(!s.handle_key(KeyPress::Char('w')));
    assert_eq!(s.next_dir, Dir::Up);
    // still heading right: a left turn is checked against the last move
    assert!(!s.handle_key(KeyPress::Char('a')));
    assert_eq!(s.next_dir, Dir::Up);
    assert_eq!(s.tick(), Tick::Moved);
    assert_eq!(s.dir, Dir::Up);
    assert_eq!(body(&s)[0], (10, 5));
}

#[test]
fn eating_grows_and_scores() {
    let mut s = Snake::new(20, 12, 99);
    s.food = Some((11, 6));
    let seed_before = s.seed;
    assert_eq!(s.tick(), Tick::Ate);
    assert_eq!(s.score, 1);
    assert_eq!(body(&s), vec![(11, 6), (10, 6), (9, 6), (8, 6)]);
    let mut rs = seed_before;
    let expected = naive_food(&s.body, &mut rs, 20, 12);
    assert_eq!(s.food, Some(expected));
    assert!(!s.body.contains(&expected));
}

#[test]
fn leaving_the_board_ends_the_round() {
    let mut s2 = Snake::new(6, 1, 5);
    s2.body = VecDeque::from(vec![(5, 0), (4, 0), (3, 0)]);
    s2.food = Some((0, 0));
    s2.over = false;
    assert_eq!(s2.tick(), Tick::Died);
    assert!(s2.over);
    assert_eq!(body(&s2), vec![(5, 0), (4, 0), (3, 0)]);
    assert_eq!(s2.tick(), Tick::Ended);
}

#[test]
fn running_into_the_tail_ends_the_round() {
    let mut s = Snake::new(10, 10, 3);
    // a square loop: head (5,5) moving down into (5,6), the tail cell
    s.body = VecDeque::from(vec![(5, 5), (6, 5), (6, 6), (5, 6)]);
    s.score = 1;
    s.dir = Dir::Left;
    s.next_dir = Dir::Down;
    s.food = Some((0, 0));
    assert_eq!(s.tick(), Tick::Died);
}

#[test]
fn pause_freezes_the_board() {
    let mut s = Snake::new(20, 12, 99);
    s.food = Some((0, 0));
    assert!(!s.handle_key(KeyPress::Char('P')));
    assert!(s.paused);
    let before = body(&s);
    assert_eq!(s.tick(), Tick::Paused);
    assert_eq!(body(&s), before);
    assert!(!s.handle_key(KeyPress::Char('p')));
    assert!(!s.paused);
}

#[test]
fn quit_keys() {
    let mut s = Snake::new(20, 12, 99);
    assert!(s.handle_key(KeyPress::Char('q')));
    assert!(s.handle_key(KeyPress::Esc));
    assert!(s.handle_key(KeyPress::Char('Q')));
    assert_eq!(command_for(KeyPress::Char('Q')), Command::Quit);
    assert_eq!(command_for(KeyPress::Char('x')), Command::Ignore);
    assert_eq!(command_for(KeyPress::Char('S')), Command::Turn(Dir::Down));
    assert_eq!(command_for(KeyPress::Right), Command::Turn(Dir::Right));
    assert_eq!(command_for(KeyPress::Enter), Command::Ignore);
}

#[test]
fn replay_keys() {
    assert!(is_replay(KeyPress::Char('r')));
    assert!(is_replay(KeyPress::Char('R')));
    assert!(is_replay(KeyPress::Enter));
    assert!(!is_replay(KeyPress::Char('q')));
    assert!(!is_replay(KeyPress::Esc));
}

#[test]
fn best_score_survives_rounds() {
    let mut s = Snake::new(20, 12, 99);
    s.score = 7;
    assert!(s.finish_round());
    assert_eq!(s.best, 7);
    s.start_round();
    assert_eq!(s.best, 7);
    assert_eq!(s.score, 0);
    s.score = 3;
    assert!(!s.finish_round());
    assert_eq!(s.best, 7);
}

#[test]
fn delay_and_level() {
    assert_eq!(delay_ms(0), 200);
    assert_eq!(delay_ms(4), 200);
    assert_eq!(delay_ms(5), 180);
    assert_eq!(delay_ms(35), 60);
    assert_eq!(delay_ms(40), 40);
    assert_eq!(delay_ms(45), 20);
    assert_eq!(delay_ms(50), 20);
    assert_eq!(delay_ms(1000), 20);
    for score in 0..200u32 {
        assert!(delay_ms(score + 1) <= delay_ms(score));
    }
    // the speed rises at every level from 1 to 10
    for lv in 1..10u32 {
        let (now, next) = ((lv - 1) * 5, lv * 5);
        assert_eq!(level(now), lv);
        assert!(delay_ms(next) < delay_ms(now));
    }
    assert_eq!(level(0), 1);
    assert_eq!(level(12), 3);
    assert_eq!(speed_bar(3), (3, 7));
    assert_eq!(speed_bar(10), (10, 0));
    assert_eq!(speed_bar(12), (10, 0));
}

#[test]
fn board_size_from_terminal() {
    assert_eq!(grid_size(80, 28), (31, 20));
    assert_eq!(grid_size(30, 10), (12, 10));
    assert_eq!(grid_size(200, 100), (31, 24));
    assert_eq!(grid_size(0, 0), (10, 10));
    for tw in 0..400u16 {
        for th in 0..100u16 {
            let gw = ((tw as i16 - 6) / 2).min(31).max(10);
            let gh = (th as i16 - 8).min(24).max(10);
            assert_eq!(grid_size(tw, th), (gw, gh));
        }
    }
}

#[test]
fn cells_of_the_board() {
    let mut s = Snake::new(20, 12, 99);
    s.food = Some((3, 4));
    assert_eq!(s.cell_at(10, 6), Cell::Snake);
    assert_eq!(s.cell_at(8, 6), Cell::Snake);
    assert_eq!(s.cell_at(3, 4), Cell::Food);
    assert_eq!(s.cell_at(0, 0), Cell::Empty);
    assert_eq!(overlay_row(20), 8);
    assert_eq!(overlay_row(2), 0);
}

#[test]
fn long_game_keeps_the_rules() {
    let mut s = Snake::new(12, 10, 0xDEAD_CAFE_BEEF_1337);
    let keys = [KeyPress::Up, KeyPress::Left, KeyPress::Down, KeyPress::Right];
    for step in 0..2000usize {
        if step % 7 == 0 {
            s.handle_key(keys[(step / 7) % 4]);
        }
        let t = s.tick();
        let b = body(&s);
        assert_eq!(b.len(), 3 + s.score as usize);
        for (i, c) in b.iter().enumerate() {
            assert!(c.0 >= 0 && c.0 < 12 && c.1 >= 0 && c.1 < 10);
            assert!(!b[i + 1..].contains(c));
        }
        if let Some(f) = s.food {
            assert!(!b.contains(&f));
        }
        if t == Tick::Died || t == Tick::NoRoom {
            s.finish_round();
            s.start_round();
        }
    }
}

#[test]
fn board_frame_widths() {
    assert_eq!(frame_width(31), 64);
    assert_eq!(header_pad(64), 15);
    assert_eq!(frame_width(10), 22);
    assert_eq!(header_pad(22), 0);
}

#[test]
fn free_cell_scan_goes_row_by_row() {
    let row0: VecDeque<(i16, i16)> = [(0, 0), (1, 0), (2, 0)].into_iter().collect();
    assert_eq!(first_free_cell(&row0, 4, 2), Some((3, 0)));
    let full_row: VecDeque<(i16, i16)> = [(3, 0), (2, 0), (1, 0), (0, 0)].into_iter().collect();
    assert_eq!(first_free_cell(&full_row, 4, 2), Some((0, 1)));
    assert_eq!(first_free_cell(&full_row, 4, 1), None);
    assert_eq!(first_free_cell(&VecDeque::new(), 5, 3), Some((0, 0)));
}

#[test]
fn a_new_round_always_has_food() {
    for seed in [1u64, 42, 777, u64::MAX] {
        let s = Snake::new(4, 1, seed);
        assert!(!s.over);
        assert_eq!(s.food, Some((3, 0)));
    }
}

#[test]
fn best_is_highest_round_of_session() {
    let mut s = Snake::new(20, 12, 5);
    let rounds = [3u32, 1, 5, 5, 0, 2];
    let want_best = [3u32, 3, 5, 5, 5, 5];
    let want_new = [true, false, true, false, false, false];
    assert_eq!(s.best, 0);
    for i in 0..rounds.len() {
        s.score = rounds[i];
        assert_eq!(s.finish_round(), want_new[i]);
        assert_eq!(s.best, want_best[i]);
        s.start_round();
    }
    let mut z = Snake::new(20, 12, 5);
    z.score = 0;
    assert!(!z.finish_round());
    assert_eq!(z.best, 0);
}
