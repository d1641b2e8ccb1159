use vstd::prelude::*;
use std::collections::VecDeque;
use crate::keys::KeyPress;
use crate::rng::{xorshift, xorshift_next};
use vstd::set_lib::{set_int_range, lemma_int_range, lemma_len_subset};
use vstd::arithmetic::div_mod::lemma_fundamental_div_mod_converse;

verus! {

/// Direction of travel on the board; `Up` decreases the row.
#[derive(Clone, Copy, PartialEq, Eq, Structural, Debug)]
pub enum Dir {
    Up,
    Down,
    Left,
    Right,
}

/// What a key press asks of a running round.
#[derive(Clone, Copy, PartialEq, Eq, Structural, Debug)]
pub enum Command {
    Turn(Dir),
    Pause,
    Quit,
    Ignore,
}

/// What one tick of the clock did to the round.
#[derive(Clone, Copy, PartialEq, Eq, Structural, Debug)]
pub enum Tick {
    /// The round is paused: nothing moved.
    Paused,
    /// The snake moved one cell without eating.
    Moved,
    /// The snake ate the food, grew by one cell and new food was placed.
    Ate,
    /// The head left the board or ran into the body: the round is over.
    Died,
    /// The snake ate and now covers the whole board, leaving no cell for food:
    /// the round is over.
    NoRoom,
    /// The round had already ended: nothing moved.
    Ended,
}

/// What the board shows at one cell.
#[derive(Clone, Copy, PartialEq, Eq, Structural, Debug)]
pub enum Cell {
    Snake,
    Food,
    Empty,
}

pub open spec fn offset(d: Dir) -> (int, int) {
    match d {
        Dir::Up => (0, -1),
        Dir::Down => (0, 1),
        Dir::Left => (-1, 0),
        Dir::Right => (1, 0),
    }
}

pub open spec fn opposite(d: Dir) -> Dir {
    match d {
        Dir::Up => Dir::Down,
        Dir::Down => Dir::Up,
        Dir::Left => Dir::Right,
        Dir::Right => Dir::Left,
    }
}

/// The cell one step from `c` in direction `d`, as unbounded integers.
pub open spec fn moved(c: (i16, i16), d: Dir) -> (int, int) {
    (c.0 + offset(d).0, c.1 + offset(d).1)
}

pub open spec fn in_grid(x: int, y: int, w: i16, h: i16) -> bool {
    0 <= x < w && 0 <= y < h
}

pub open spec fn adjacent(a: (i16, i16), b: (i16, i16)) -> bool {
    ||| a.0 == b.0 && (a.1 - b.1 == 1 || b.1 - a.1 == 1)
    ||| a.1 == b.1 && (a.0 - b.0 == 1 || b.0 - a.0 == 1)
}

/// One food attempt: two generator steps give the column and the row.
pub open spec fn food_candidate(s: u64, w: i16, h: i16) -> ((i16, i16), u64) {
    let s1 = xorshift_next(s);
    let s2 = xorshift_next(s1);
    (((s1 % (w as u64)) as i16, (s2 % (h as u64)) as i16), s2)
}

/// The first of at most `tries` attempts that lands off the body, with the
/// generator state after it; `None` when every attempt landed on the body.
pub open spec fn food_search(body: Seq<(i16, i16)>, s: u64, w: i16, h: i16, tries: nat) -> (
    Option<(i16, i16)>,
    u64,
)
    decreases tries,
{
    if tries == 0 {
        (None, s)
    } else {
        let (c, s2) = food_candidate(s, w, h);
        if !body.contains(c) {
            (Some(c), s2)
        } else {
            food_search(body, s2, w, h, (tries - 1) as nat)
        }
    }
}

/// Attempts the food search draws before it scans the board instead.
/// XorShift64 with shifts 13, 7, 17 is known to run through all nonzero
/// states in one cycle of this length (a property of the generator that is
/// not proved here), and an attempt takes two steps, so later attempts would
/// only repeat earlier candidates.
pub open spec fn food_tries() -> nat {
    u64::MAX as nat
}

/// The cell with row-major index `k` on a board `w` wide.
pub open spec fn cell_of(k: int, w: i16) -> (i16, i16) {
    ((k % (w as int)) as i16, (k / (w as int)) as i16)
}

/// The first cell off the body in row-major order, starting at index `k`.
pub open spec fn first_free_from(body: Seq<(i16, i16)>, w: i16, h: i16, k: int) -> Option<(i16, i16)>
    decreases w * h - k,
{
    if k < 0 || k >= w * h {
        None
    } else if !body.contains(cell_of(k, w)) {
        Some(cell_of(k, w))
    } else {
        first_free_from(body, w, h, k + 1)
    }
}

/// Whether some cell of the board is off the body.
pub open spec fn has_room(body: Seq<(i16, i16)>, w: i16, h: i16) -> bool {
    exists|x: int, y: int| in_grid(x, y, w, h) && !body.contains((x as i16, y as i16))
}

/// Where food goes: the first drawn candidate off the body, or, when all
/// the drawn candidates landed on it, the first free cell in row-major
/// order; with the generator state after the draws.
pub open spec fn place_food(body: Seq<(i16, i16)>, s: u64, w: i16, h: i16) -> (
    Option<(i16, i16)>,
    u64,
) {
    let (r, s2) = food_search(body, s, w, h, food_tries());
    if r is Some {
        (r, s2)
    } else {
        (first_free_from(body, w, h, 0), s2)
    }
}

/// The three-cell snake a round starts with: centred, heading right.
pub open spec fn initial_body(w: i16, h: i16) -> Seq<(i16, i16)> {
    let cx = (w / 2) as i16;
    let cy = (h / 2) as i16;
    seq![(cx, cy), ((cx - 1) as i16, cy), ((cx - 2) as i16, cy)]
}

/// The command a key asks for while a round runs.
pub open spec fn spec_command(k: KeyPress) -> Command {
    match k {
        KeyPress::Up => Command::Turn(Dir::Up),
        KeyPress::Down => Command::Turn(Dir::Down),
        KeyPress::Left => Command::Turn(Dir::Left),
        KeyPress::Right => Command::Turn(Dir::Right),
        KeyPress::Esc => Command::Quit,
        KeyPress::Char(c) => {
            if c == 'w' || c == 'W' {
                Command::Turn(Dir::Up)
            } else if c == 's' || c == 'S' {
                Command::Turn(Dir::Down)
            } else if c == 'a' || c == 'A' {
                Command::Turn(Dir::Left)
            } else if c == 'd' || c == 'D' {
                Command::Turn(Dir::Right)
            } else if c == 'p' || c == 'P' {
                Command::Pause
            } else if c == 'q' || c == 'Q' {
                Command::Quit
            } else {
                Command::Ignore
            }
        },
        _ => Command::Ignore,
    }
}

/// Reads a key press as a command for the running round: arrows and WASD
/// turn, `p` pauses, `q` or Escape quits; letters count in either case.
pub fn command_for(k: KeyPress) -> (c: Command)
    ensures
        c == spec_command(k),
{
    match k {
        KeyPress::Up => Command::Turn(Dir::Up),
        KeyPress::Down => Command::Turn(Dir::Down),
        KeyPress::Left => Command::Turn(Dir::Left),
        KeyPress::Right => Command::Turn(Dir::Right),
        KeyPress::Esc => Command::Quit,
        KeyPress::Char(c) => {
            if c == 'w' || c == 'W' {
                Command::Turn(Dir::Up)
            } else if c == 's' || c == 'S' {
                Command::Turn(Dir::Down)
            } else if c == 'a' || c == 'A' {
                Command::Turn(Dir::Left)
            } else if c == 'd' || c == 'D' {
                Command::Turn(Dir::Right)
            } else if c == 'p' || c == 'P' {
                Command::Pause
            } else if c == 'q' || c == 'Q' {
                Command::Quit
            } else {
                Command::Ignore
            }
        },
        _ => Command::Ignore,
    }
}

/// The controls: each arrow key and each WASD letter, in either case,
/// turns the snake that way (`w` up, `a` left, `s` down, `d` right); `p` in
/// either case pauses; `q` in either case and Escape quit.
pub proof fn lemma_controls()
    ensures
        spec_command(KeyPress::Up) == Command::Turn(Dir::Up),
        spec_command(KeyPress::Down) == Command::Turn(Dir::Down),
        spec_command(KeyPress::Left) == Command::Turn(Dir::Left),
        spec_command(KeyPress::Right) == Command::Turn(Dir::Right),
        spec_command(KeyPress::Char('w')) == Command::Turn(Dir::Up),
        spec_command(KeyPress::Char('W')) == Command::Turn(Dir::Up),
        spec_command(KeyPress::Char('a')) == Command::Turn(Dir::Left),
        spec_command(KeyPress::Char('A')) == Command::Turn(Dir::Left),
        spec_command(KeyPress::Char('s')) == Command::Turn(Dir::Down),
        spec_command(KeyPress::Char('S')) == Command::Turn(Dir::Down),
        spec_command(KeyPress::Char('d')) == Command::Turn(Dir::Right),
        spec_command(KeyPress::Char('D')) == Command::Turn(Dir::Right),
        spec_command(KeyPress::Char('p')) == Command::Pause,
        spec_command(KeyPress::Char('P')) == Command::Pause,
        spec_command(KeyPress::Char('q')) == Command::Quit,
        spec_command(KeyPress::Char('Q')) == Command::Quit,
        spec_command(KeyPress::Esc) == Command::Quit,
        forall|c: char| !(c == 'w' || c == 'W' || c == 'a' || c == 'A' || c == 's' || c == 'S' || c == 'd'
            || c == 'D' || c == 'p' || c == 'P' || c == 'q' || c == 'Q') ==> #[trigger] spec_command(KeyPress::Char(c)) == Command::Ignore,
{
}

/// A move changes one coordinate by one: up is the row above (one less),
/// down the row below, left the column to the left (one less), right the
/// column to the right; and a direction and its opposite undo each other.
pub proof fn lemma_moves(c: (i16, i16))
    ensures
        moved(c, Dir::Up) == (c.0 as int, c.1 - 1),
        moved(c, Dir::Down) == (c.0 as int, c.1 + 1),
        moved(c, Dir::Left) == (c.0 - 1, c.1 as int),
        moved(c, Dir::Right) == (c.0 + 1, c.1 as int),
        forall|d: Dir| #[trigger] opposite(d) != d && opposite(opposite(d)) == d && offset(opposite(d)).0 == -offset(d).0
            && offset(opposite(d)).1 == -offset(d).1,
{
    assert forall|d: Dir| #[trigger] opposite(d) != d && opposite(opposite(d)) == d && offset(opposite(d)).0 == -offset(d).0
        && offset(opposite(d)).1 == -offset(d).1 by {
        match d {
            Dir::Up => {},
            Dir::Down => {},
            Dir::Left => {},
            Dir::Right => {},
        }
    }
}

/// The board of `w` by `h` cells runs from column 0 to column `w - 1` and
/// from row 0 to row `h - 1`: a head one step past any edge is off it.
pub proof fn lemma_board_edges(w: i16, h: i16, x: int, y: int)
    requires
        w > 0,
        h > 0,
    ensures
        in_grid(0, 0, w, h),
        in_grid(w - 1, h - 1, w, h),
        !in_grid(-1, y, w, h),
        !in_grid(w as int, y, w, h),
        !in_grid(x, -1, w, h),
        !in_grid(x, h as int, w, h),
{
}

/// On the game-over screen, `r`, `R` and Enter start another round; any
/// other key leaves the game.
pub fn is_replay(k: KeyPress) -> (r: bool)
    ensures
        r == (k == KeyPress::Char('r') || k == KeyPress::Char('R') || k == KeyPress::Enter),
{
    match k {
        KeyPress::Char(c) => c == 'r' || c == 'R',
        KeyPress::Enter => true,
        _ => false,
    }
}

/// Whether `c` occurs in `cells`.
pub fn contains_cell(cells: &VecDeque<(i16, i16)>, c: (i16, i16)) -> (r: bool)
    ensures
        r == cells@.contains(c),
{
    let n = cells.len();
    let mut i: usize = 0;
    while i < n
        invariant
            n == cells@.len(),
            i <= n,
            forall|j: int| 0 <= j < i ==> cells@[j] != c,
        decreases n - i,
    {
        let d = cells[i];
        if d.0 == c.0 && d.1 == c.1 {
            assert(cells@[i as int] == c);
            return true;
        }
        i += 1;
    }
    false
}

/// Places food: draws candidate cells from the generator until one is off
/// the body, advancing the generator state as it goes; should every draw of
/// the generator's cycle land on the body, the board is scanned in row-major
/// order instead. Food is found exactly when the board has a free cell.
pub fn snake_food(body: &VecDeque<(i16, i16)>, s: &mut u64, w: i16, h: i16) -> (r: Option<
    (i16, i16),
>)
    requires
        w > 0,
        h > 0,
    ensures
        (r, *final(s)) == place_food(body@, *old(s), w, h),
        r is Some <==> has_room(body@, w, h),
        r matches Some(c) ==> in_grid(c.0 as int, c.1 as int, w, h) && !body@.contains(c),
{
    let mut left: u64 = u64::MAX;
    while left > 0
        invariant
            w > 0,
            h > 0,
            food_search(body@, *s, w, h, left as nat) == food_search(
                body@,
                *old(s),
                w,
                h,
                food_tries(),
            ),
        decreases left,
    {
        let ghost s0 = *s;
        let x = (xorshift(s) % (w as u64)) as i16;
        let y = (xorshift(s) % (h as u64)) as i16;
        assert((x, y) == food_candidate(s0, w, h).0);
        if !contains_cell(body, (x, y)) {
            assert(place_food(body@, *old(s), w, h) == (Some((x, y)), *s));
            proof {
                lemma_place_food(body@, *old(s), w, h);
            }
            return Some((x, y));
        }
        left -= 1;
    }
    let r = first_free_cell(body, w, h);
    assert(place_food(body@, *old(s), w, h) == (r, *s));
    proof {
        lemma_place_food(body@, *old(s), w, h);
    }
    r
}

/// The first cell of the board off the body, in row-major order (row by
/// row from the top, each row from the left); `None` when the body covers
/// the whole board.
pub fn first_free_cell(body: &VecDeque<(i16, i16)>, w: i16, h: i16) -> (r: Option<(i16, i16)>)
    requires
        w > 0,
        h > 0,
    ensures
        r == first_free_from(body@, w, h, 0),
        r is Some <==> has_room(body@, w, h),
        r matches Some(c) ==> in_grid(c.0 as int, c.1 as int, w, h) && !body@.contains(c),
{
    proof {
        lemma_first_free(body@, w, h, 0);
        lemma_room(body@, w, h);
        assert(w * h <= 32767 * 32767) by (nonlinear_arith)
            requires
                0 < w <= 32767,
                0 < h <= 32767,
        ;
    }
    let n: u32 = w as u32 * h as u32;
    let mut k: u32 = 0;
    while k < n
        invariant
            w > 0,
            h > 0,
            n == w * h,
            k <= n,
            first_free_from(body@, w, h, k as int) == first_free_from(body@, w, h, 0),
        decreases n - k,
    {
        proof {
            lemma_cell_of(k as int, w, h);
        }
        let x = (k % (w as u32)) as i16;
        let y = (k / (w as u32)) as i16;
        assert((x, y) == cell_of(k as int, w));
        if !contains_cell(body, (x, y)) {
            return Some((x, y));
        }
        k += 1;
    }
    None
}

/// The cell with index `k` below `w * h` lies on the board.
proof fn lemma_cell_of(k: int, w: i16, h: i16)
    requires
        w > 0,
        h > 0,
        0 <= k < w * h,
    ensures
        0 <= k % (w as int) < w,
        0 <= k / (w as int) < h,
        in_grid(cell_of(k, w).0 as int, cell_of(k, w).1 as int, w, h),
        cell_of(k, w).0 as int == k % (w as int),
        cell_of(k, w).1 as int == k / (w as int),
{
    assert(0 <= k % (w as int) < w && 0 <= k / (w as int) < h) by (nonlinear_arith)
        requires
            w > 0,
            h > 0,
            0 <= k < w * h,
    ;
}

/// The row-major scan from index `k` finds a cell on the board and off the
/// body, and finds none exactly when the body covers every later cell.
proof fn lemma_first_free(body: Seq<(i16, i16)>, w: i16, h: i16, k: int)
    requires
        w > 0,
        h > 0,
        0 <= k <= w * h,
    ensures
        first_free_from(body, w, h, k) matches Some(c) ==> in_grid(c.0 as int, c.1 as int, w, h)
            && !body.contains(c),
        first_free_from(body, w, h, k) is None <==> forall|j: int|
            k <= j < w * h ==> body.contains(#[trigger] cell_of(j, w)),
    decreases w * h - k,
{
    if k < w * h {
        lemma_cell_of(k, w, h);
        lemma_first_free(body, w, h, k + 1);
        if first_free_from(body, w, h, k) is None {
            assert forall|j: int| k <= j < w * h implies body.contains(#[trigger] cell_of(j, w)) by {
                if j > k {
                    assert(k + 1 <= j < w * h);
                }
            }
        }
    }
}

/// The board has a free cell exactly when some row-major index below
/// `w * h` names a cell off the body.
proof fn lemma_room(body: Seq<(i16, i16)>, w: i16, h: i16)
    requires
        w > 0,
        h > 0,
    ensures
        has_room(body, w, h) <==> exists|j: int| 0 <= j < w * h && !body.contains(#[trigger] cell_of(j, w)),
{
    if has_room(body, w, h) {
        let (x, y) = choose|x: int, y: int| in_grid(x, y, w, h) && !body.contains((x as i16, y as i16));
        let j = y * (w as int) + x;
        lemma_cell_index(x, y, x, y, w as int, h as int);
        lemma_fundamental_div_mod_converse(j, w as int, y, x);
        assert(cell_of(j, w) == (x as i16, y as i16));
    }
    if exists|j: int| 0 <= j < w * h && !body.contains(#[trigger] cell_of(j, w)) {
        let j = choose|j: int| 0 <= j < w * h && !body.contains(#[trigger] cell_of(j, w));
        lemma_cell_of(j, w, h);
        let x = j % (w as int);
        let y = j / (w as int);
        assert(in_grid(x, y, w, h) && !body.contains((x as i16, y as i16)));
    }
}

/// Food is placed exactly when the board has room for it, and always on the
/// board and off the body.
pub proof fn lemma_place_food(body: Seq<(i16, i16)>, s: u64, w: i16, h: i16)
    requires
        w > 0,
        h > 0,
    ensures
        place_food(body, s, w, h).0 is Some <==> has_room(body, w, h),
        place_food(body, s, w, h).0 matches Some(c) ==> in_grid(c.0 as int, c.1 as int, w, h)
            && !body.contains(c),
{
    lemma_food_search_free(body, s, w, h, food_tries());
    lemma_first_free(body, w, h, 0);
    lemma_room(body, w, h);
    if has_room(body, w, h) && food_search(body, s, w, h, food_tries()).0 is None {
        let j = choose|j: int| 0 <= j < w * h && !body.contains(#[trigger] cell_of(j, w));
        assert(!body.contains(cell_of(j, w)));
    }
    if food_search(body, s, w, h, food_tries()).0 is Some {
        let c = food_search(body, s, w, h, food_tries()).0->0;
        assert(in_grid(c.0 as int, c.1 as int, w, h) && !body.contains(c));
        assert(has_room(body, w, h)) by {
            assert(in_grid(c.0 as int, c.1 as int, w, h) && !body.contains((c.0 as int as i16, c.1 as int as i16)));
        }
    }
}

/// Every cell the food search returns lies on the board and off the body.
pub proof fn lemma_food_search_free(body: Seq<(i16, i16)>, s: u64, w: i16, h: i16, tries: nat)
    requires
        w > 0,
        h > 0,
    ensures
        food_search(body, s, w, h, tries).0 matches Some(c) ==> in_grid(c.0 as int, c.1 as int, w, h)
            && !body.contains(c),
    decreases tries,
{
    if tries > 0 {
        let (c, s2) = food_candidate(s, w, h);
        let s1 = xorshift_next(s);
        assert(s1 % (w as u64) < w);
        assert(s2 % (h as u64) < h);
        if body.contains(c) {
            lemma_food_search_free(body, s2, w, h, (tries - 1) as nat);
        }
    }
}

/// Distinct cells of a board `w` wide map to distinct row-major indices
/// below `w * h`.
proof fn lemma_cell_index(x1: int, y1: int, x2: int, y2: int, w: int, h: int)
    requires
        0 <= x1 < w,
        0 <= y1 < h,
        0 <= x2 < w,
        0 <= y2 < h,
    ensures
        0 <= y1 * w + x1 < w * h,
        y1 * w + x1 == y2 * w + x2 ==> x1 == x2 && y1 == y2,
{
    assert(0 <= y1 * w + x1 < w * h) by (nonlinear_arith)
        requires
            0 <= x1 < w,
            0 <= y1 < h,
    ;
    if y1 * w + x1 == y2 * w + x2 {
        if y1 < y2 {
            assert(y1 * w + x1 < y2 * w + x2) by (nonlinear_arith)
                requires
                    y1 < y2,
                    0 <= x1 < w,
                    0 <= x2,
            ;
        } else if y2 < y1 {
            assert(y2 * w + x2 < y1 * w + x1) by (nonlinear_arith)
                requires
                    y2 < y1,
                    0 <= x2 < w,
                    0 <= x1,
            ;
        }
    }
}

/// A sequence of distinct cells of a `w` by `h` board has at most `w * h` cells.
pub proof fn lemma_distinct_cells_fit(cells: Seq<(i16, i16)>, w: i16, h: i16)
    requires
        w > 0,
        h > 0,
        cells.no_duplicates(),
        forall|i: int| 0 <= i < cells.len() ==> #[trigger] in_grid(cells[i].0 as int, cells[i].1 as int, w, h),
    ensures
        cells.len() <= w * h,
{
    let idx = cells.map_values(|c: (i16, i16)| c.1 * w + c.0);
    assert forall|i: int, j: int| 0 <= i < idx.len() && 0 <= j < idx.len() && i != j implies idx[i]
        != idx[j] by {
        assert(in_grid(cells[i].0 as int, cells[i].1 as int, w, h));
        assert(in_grid(cells[j].0 as int, cells[j].1 as int, w, h));
        lemma_cell_index(cells[i].0 as int, cells[i].1 as int, cells[j].0 as int, cells[j].1 as int, w as int, h as int);
    }
    assert(idx.no_duplicates());
    idx.unique_seq_to_set();
    lemma_int_range(0, w * h);
    assert forall|v: int| idx.to_set().contains(v) implies set_int_range(0, w * h).contains(v) by {
        let i = choose|i: int| 0 <= i < idx.len() && idx[i] == v;
        assert(in_grid(cells[i].0 as int, cells[i].1 as int, w, h));
        lemma_cell_index(cells[i].0 as int, cells[i].1 as int, cells[i].0 as int, cells[i].1 as int, w as int, h as int);
    }
    lemma_len_subset(idx.to_set(), set_int_range(0, w * h));
}


/// A snake session: the board, the current round and the best score so far.
pub struct Snake {
    /// Board width in cells.
    pub width: i16,
    /// Board height in cells.
    pub height: i16,
    /// The snake, head first.
    pub body: VecDeque<(i16, i16)>,
    /// Direction of the last move.
    pub dir: Dir,
    /// Direction of the next move.
    pub next_dir: Dir,
    /// Where the food lies; `None` once the snake covers the whole board.
    pub food: Option<(i16, i16)>,
    pub score: u32,
    /// Best score of the session.
    pub best: u32,
    pub paused: bool,
    /// The round has ended (the snake died or filled the board).
    pub over: bool,
    /// Generator state, carried from round to round.
    pub seed: u64,
}

impl Snake {
    /// The rules every reachable state keeps.
    pub open spec fn wf(&self) -> bool {
        let b = self.body@;
        &&& 4 <= self.width
        &&& 1 <= self.height
        &&& b.len() == 3 + self.score
        &&& forall|i: int| 0 <= i < b.len() ==> #[trigger] in_grid(b[i].0 as int, b[i].1 as int, self.width, self.height)
        &&& b.no_duplicates()
        &&& forall|i: int| 0 <= i < b.len() - 1 ==> #[trigger] adjacent(b[i], b[i + 1])
        &&& self.next_dir != opposite(self.dir)
        &&& !self.over ==> moved(b[1], self.dir) == (b[0].0 as int, b[0].1 as int)
        &&& !self.over ==> self.food is Some
        &&& self.food matches Some(f) ==> in_grid(f.0 as int, f.1 as int, self.width, self.height) && !b.contains(f)
    }

    /// Opens a session on a board `w` by `h` with the generator seeded by
    /// `seed`, and starts its first round.
    pub fn new(w: i16, h: i16, seed: u64) -> (s: Snake)
        requires
            4 <= w,
            1 <= h,
        ensures
            s.wf(),
            s.width == w,
            s.height == h,
            s.best == 0,
            s.body@ == initial_body(w, h),
            s.dir == Dir::Right,
            s.next_dir == Dir::Right,
            s.score == 0,
            !s.paused,
            (s.food, s.seed) == place_food(initial_body(w, h), seed, w, h),
            s.over == (s.food is None),
            !s.over,
    {
        let mut s = Snake {
            width: w,
            height: h,
            body: VecDeque::new(),
            dir: Dir::Right,
            next_dir: Dir::Right,
            food: None,
            score: 0,
            best: 0,
            paused: false,
            over: true,
            seed,
        };
        s.start_round();
        s
    }

    /// Starts a round: the snake is reset to the middle of the board heading
    /// right, the score to zero, and food is placed.
    pub fn start_round(&mut self)
        requires
            4 <= old(self).width,
            1 <= old(self).height,
        ensures
            final(self).wf(),
            final(self).width == old(self).width,
            final(self).height == old(self).height,
            final(self).best == old(self).best,
            final(self).body@ == initial_body(old(self).width, old(self).height),
            final(self).dir == Dir::Right,
            final(self).next_dir == Dir::Right,
            final(self).score == 0,
            !final(self).paused,
            (final(self).food, final(self).seed) == place_food(
                initial_body(old(self).width, old(self).height),
                old(self).seed,
                old(self).width,
                old(self).height,
            ),
            final(self).over == (final(self).food is None),
            !final(self).over,
    {
        let cx = self.width / 2;
        let cy = self.height / 2;
        let mut body: VecDeque<(i16, i16)> = VecDeque::new();
        body.push_back((cx, cy));
        body.push_back((cx - 1, cy));
        body.push_back((cx - 2, cy));
        assert(body@ == initial_body(self.width, self.height));
        let food = snake_food(&body, &mut self.seed, self.width, self.height);
        proof {
            lemma_place_food(body@, old(self).seed, self.width, self.height);
            let free = ((self.width - 1) as int, cy as int);
            assert(in_grid(free.0, free.1, self.width, self.height) && !body@.contains((free.0 as i16, free.1 as i16)));
        }
        self.body = body;
        self.dir = Dir::Right;
        self.next_dir = Dir::Right;
        self.food = food;
        self.score = 0;
        self.paused = false;
        self.over = food.is_none();
        assert(self.body@.no_duplicates());
    }

    /// Applies a key press: a turn is taken unless it points straight back
    /// against the last move, `p` toggles the pause; the result tells
    /// whether the key asks to quit.
    pub fn handle_key(&mut self, k: KeyPress) -> (quit: bool)
        requires
            old(self).wf(),
        ensures
            final(self).wf(),
            quit == (spec_command(k) == Command::Quit),
            final(self).width == old(self).width,
            final(self).height == old(self).height,
            final(self).body@ == old(self).body@,
            final(self).dir == old(self).dir,
            final(self).food == old(self).food,
            final(self).score == old(self).score,
            final(self).best == old(self).best,
            final(self).over == old(self).over,
            final(self).seed == old(self).seed,
            final(self).next_dir == (match spec_command(k) {
                Command::Turn(d) => if old(self).dir != opposite(d) { d } else { old(self).next_dir },
                _ => old(self).next_dir,
            }),
            final(self).paused == (if spec_command(k) == Command::Pause {
                !old(self).paused
            } else {
                old(self).paused
            }),
    {
        match command_for(k) {
            Command::Turn(d) => {
                let back = match d {
                    Dir::Up => Dir::Down,
                    Dir::Down => Dir::Up,
                    Dir::Left => Dir::Right,
                    Dir::Right => Dir::Left,
                };
                if self.dir != back {
                    self.next_dir = d;
                }
                false
            },
            Command::Pause => {
                self.paused = !self.paused;
                false
            },
            Command::Quit => true,
            Command::Ignore => false,
        }
    }

    /// Advances the round by one tick: unless paused or over, the snake
    /// turns to the chosen direction and moves its head one cell; leaving
    /// the board or running into any body cell (the tail included) ends the
    /// round; landing on the food grows the snake, scores a point and places
    /// new food, otherwise the tail cell is dropped.
    #[verifier::rlimit(30)]
    pub fn tick(&mut self) -> (r: Tick)
        requires
            old(self).wf(),
        ensures
            final(self).wf(),
            final(self).width == old(self).width,
            final(self).height == old(self).height,
            final(self).best == old(self).best,
            final(self).paused == old(self).paused,
            final(self).next_dir == old(self).next_dir,
            old(self).over ==> r == Tick::Ended && *final(self) == *old(self),
            !old(self).over && old(self).paused ==> r == Tick::Paused && *final(self) == *old(self),
            !old(self).over && !old(self).paused ==> ({
                let b = old(self).body@;
                let nh = moved(b[0], old(self).next_dir);
                let c = (nh.0 as i16, nh.1 as i16);
                &&& final(self).dir == old(self).next_dir
                &&& if !in_grid(nh.0, nh.1, old(self).width, old(self).height) || b.contains(c) {
                    &&& r == Tick::Died
                    &&& final(self).over
                    &&& final(self).body@ == b
                    &&& final(self).score == old(self).score
                    &&& final(self).food == old(self).food
                    &&& final(self).seed == old(self).seed
                } else if old(self).food == Some(c) {
                    &&& final(self).body@ == seq![c] + b
                    &&& final(self).score == old(self).score + 1
                    &&& (final(self).food, final(self).seed) == place_food(
                        seq![c] + b,
                        old(self).seed,
                        old(self).width,
                        old(self).height,
                    )
                    &&& final(self).over == (final(self).food is None)
                    &&& (final(self).food is None <==> !has_room(seq![c] + b, old(self).width, old(self).height))
                    &&& r == (if final(self).food is None { Tick::NoRoom } else { Tick::Ate })
                } else {
                    &&& r == Tick::Moved
                    &&& !final(self).over
                    &&& final(self).body@ == seq![c] + b.drop_last()
                    &&& final(self).score == old(self).score
                    &&& final(self).food == old(self).food
                    &&& final(self).seed == old(self).seed
                }
            }),
    {
        if self.over {
            return Tick::Ended;
        }
        if self.paused {
            return Tick::Paused;
        }
        self.dir = self.next_dir;
        let ghost b = self.body@;
        let head = self.body[0];
        let (hx, hy) = head;
        assert(in_grid(b[0].0 as int, b[0].1 as int, self.width, self.height));
        let nh: (i16, i16) = match self.dir {
            Dir::Up => (hx, hy - 1),
            Dir::Down => (hx, hy + 1),
            Dir::Left => (hx - 1, hy),
            Dir::Right => (hx + 1, hy),
        };
        if nh.0 < 0 || nh.0 >= self.width || nh.1 < 0 || nh.1 >= self.height || contains_cell(
            &self.body,
            nh,
        ) {
            self.over = true;
            return Tick::Died;
        }
        self.body.push_front(nh);
        let ghost nb = self.body@;
        assert(nb == seq![nh] + b);
        assert(nb.no_duplicates()) by {
            assert forall|i: int, j: int| 0 <= i < nb.len() && 0 <= j < nb.len() && i != j implies nb[i] != nb[j] by {
                if i == 0 {
                    assert(nb[j] == b[j - 1]);
                } else if j == 0 {
                    assert(nb[i] == b[i - 1]);
                } else {
                    assert(nb[i] == b[i - 1] && nb[j] == b[j - 1]);
                }
            }
        }
        assert forall|i: int| 0 <= i < nb.len() implies #[trigger] in_grid(nb[i].0 as int, nb[i].1 as int, self.width, self.height) by {
            if i > 0 {
                assert(nb[i] == b[i - 1]);
                assert(in_grid(b[i - 1].0 as int, b[i - 1].1 as int, self.width, self.height));
            }
        }
        assert forall|i: int| 0 <= i < nb.len() - 1 implies #[trigger] adjacent(nb[i], nb[i + 1]) by {
            if i > 0 {
                let k = i - 1;
                assert(nb[i] == b[k] && nb[i + 1] == b[k + 1]);
                assert(adjacent(b[k], b[k + 1]));
            }
        }
        let eats = match self.food {
            Some(f) => f.0 == nh.0 && f.1 == nh.1,
            None => false,
        };
        if eats {
            proof {
                lemma_distinct_cells_fit(nb, self.width, self.height);
                assert(self.width * self.height <= 32767 * 32767) by (nonlinear_arith)
                    requires
                        0 < self.width <= 32767,
                        0 < self.height <= 32767,
                ;
                lemma_place_food(nb, self.seed, self.width, self.height);
            }
            self.score = self.score + 1;
            let food = snake_food(&self.body, &mut self.seed, self.width, self.height);
            self.food = food;
            if food.is_none() {
                self.over = true;
                Tick::NoRoom
            } else {
                Tick::Ate
            }
        } else {
            let _ = self.body.pop_back();
            let ghost fb = self.body@;
            assert(fb == seq![nh] + b.drop_last());
            assert(fb.no_duplicates()) by {
                assert forall|i: int, j: int| 0 <= i < fb.len() && 0 <= j < fb.len() && i != j implies fb[i] != fb[j] by {
                    assert(fb[i] == nb[i] && fb[j] == nb[j]);
                }
            }
            assert forall|i: int| 0 <= i < fb.len() implies #[trigger] in_grid(fb[i].0 as int, fb[i].1 as int, self.width, self.height) by {
                assert(fb[i] == nb[i]);
                assert(in_grid(nb[i].0 as int, nb[i].1 as int, self.width, self.height));
            }
            assert forall|i: int| 0 <= i < fb.len() - 1 implies #[trigger] adjacent(fb[i], fb[i + 1]) by {
                assert(fb[i] == nb[i] && fb[i + 1] == nb[i + 1]);
                assert(adjacent(nb[i], nb[i + 1]));
            }
            assert(fb[1] == b[0]);
            Tick::Moved
        }
    }
    /// Ends a round: the best score rises to this round's score if it was
    /// beaten; the result tells whether it was.
    pub fn finish_round(&mut self) -> (new_best: bool)
        ensures
            new_best == (old(self).score > old(self).best),
            final(self).best == raised_best(old(self).best, old(self).score),
            final(self).width == old(self).width,
            final(self).height == old(self).height,
            final(self).body@ == old(self).body@,
            final(self).dir == old(self).dir,
            final(self).next_dir == old(self).next_dir,
            final(self).food == old(self).food,
            final(self).score == old(self).score,
            final(self).paused == old(self).paused,
            final(self).over == old(self).over,
            final(self).seed == old(self).seed,
    {
        let new_best = self.score > self.best;
        if new_best {
            self.best = self.score;
        }
        new_best
    }

    /// What the board shows at column `col`, row `row`: the snake covers
    /// the food, which covers the empty board.
    pub fn cell_at(&self, col: i16, row: i16) -> (c: Cell)
        ensures
            c == (if self.body@.contains((col, row)) {
                Cell::Snake
            } else if self.food == Some((col, row)) {
                Cell::Food
            } else {
                Cell::Empty
            }),
    {
        if contains_cell(&self.body, (col, row)) {
            Cell::Snake
        } else {
            match self.food {
                Some(f) => if f.0 == col && f.1 == row {
                    Cell::Food
                } else {
                    Cell::Empty
                },
                None => Cell::Empty,
            }
        }
    }

    /// Milliseconds to wait for a key before the next tick at this round's score.
    pub fn delay_ms(&self) -> (ms: u64)
        ensures
            ms == spec_delay_ms(self.score),
    {
        delay_ms(self.score)
    }
}


/// The best score once a round that scored `score` has ended.
pub open spec fn raised_best(best: u32, score: u32) -> u32 {
    if score > best { score } else { best }
}

/// The best score of a session after rounds that scored `scores`, in order:
/// a session starts at 0 and each finished round may raise it.
pub open spec fn best_after(scores: Seq<u32>) -> u32
    decreases scores.len(),
{
    if scores.len() == 0 {
        0
    } else {
        raised_best(best_after(scores.drop_last()), scores.last())
    }
}

/// The best score of a session is the highest score of its rounds (0 before
/// any round), and a round sets a new best exactly when it beats 0 and every
/// earlier round.
pub proof fn lemma_best_is_highest(scores: Seq<u32>)
    ensures
        forall|i: int| 0 <= i < scores.len() ==> scores[i] <= best_after(scores),
        best_after(scores) == 0 || exists|i: int| 0 <= i < scores.len() && scores[i] == best_after(scores),
        forall|k: int| 0 <= k < scores.len() ==> (scores[k] > #[trigger] best_after(scores.take(k)) <==> (
            scores[k] > 0 && forall|j: int| 0 <= j < k ==> scores[j] < scores[k])),
    decreases scores.len(),
{
    if scores.len() > 0 {
        let init = scores.drop_last();
        lemma_best_is_highest(init);
        assert forall|i: int| 0 <= i < scores.len() implies scores[i] <= best_after(scores) by {
            if i < scores.len() - 1 {
                assert(init[i] == scores[i]);
            }
        }
        if best_after(scores) != 0 && best_after(scores) != scores.last() {
            let i = choose|i: int| 0 <= i < init.len() && init[i] == best_after(init);
            assert(scores[i] == best_after(scores));
        }
        assert forall|k: int| 0 <= k < scores.len() implies (scores[k] > #[trigger] best_after(scores.take(k)) <==> (
            scores[k] > 0 && forall|j: int| 0 <= j < k ==> scores[j] < scores[k])) by {
            let pre = scores.take(k);
            lemma_best_is_highest(pre);
            assert forall|j: int| 0 <= j < k implies pre[j] == scores[j] by {}
            if scores[k] > best_after(pre) {
                assert forall|j: int| 0 <= j < k implies scores[j] < scores[k] by {
                    assert(pre[j] <= best_after(pre));
                }
            }
            if scores[k] > 0 && forall|j: int| 0 <= j < k ==> scores[j] < scores[k] {
                if best_after(pre) != 0 {
                    let j = choose|j: int| 0 <= j < pre.len() && pre[j] == best_after(pre);
                    assert(scores[j] < scores[k]);
                }
            }
        }
    }
}

/// The shortest wait between ticks, reached at level 10.
pub const MIN_DELAY_MS: u64 = 20;

/// The wait between ticks: 200 ms, 20 ms less for every 5 points (one
/// level), down to 20 ms at level 10, and no shorter after that.
pub open spec fn spec_delay_ms(score: u32) -> u64 {
    let cut = (score / 5) as int * 20;
    let d = if cut <= 200 { 200 - cut } else { 0 };
    if d < MIN_DELAY_MS { MIN_DELAY_MS } else { d as u64 }
}

/// Milliseconds to wait for a key before the next tick at `score`.
pub fn delay_ms(score: u32) -> (ms: u64)
    ensures
        ms == spec_delay_ms(score),
        score / 5 <= 9 ==> ms == 200 - 20 * (score / 5),
        score / 5 >= 9 ==> ms == 20,
{
    let cut: u64 = (score / 5) as u64 * 20;
    let d: u64 = if cut <= 200 { 200 - cut } else { 0 };
    if d < MIN_DELAY_MS { MIN_DELAY_MS } else { d }
}

/// The game only speeds up: the delay stays between 20 and 200 ms, never
/// grows as the score grows, and shrinks at every new level up to level 10.
pub proof fn lemma_delay_bounds(a: u32, b: u32)
    requires
        a <= b,
    ensures
        MIN_DELAY_MS <= spec_delay_ms(a) <= 200,
        spec_delay_ms(b) <= spec_delay_ms(a),
        a / 5 < b / 5 && b / 5 + 1 <= 10 ==> spec_delay_ms(b) < spec_delay_ms(a),
        spec_delay_ms(0) == 200,
{
    assert(a / 5 <= b / 5) by (nonlinear_arith)
        requires
            a <= b,
    ;
}

/// Each level takes exactly 20 ms off the 200 ms of the first: at level
/// `score / 5 + 1` up to 10 the delay is `200 - 20 * (score / 5)` ms, and
/// from level 10 on it stays at 20 ms.
pub proof fn lemma_delay_per_level(score: u32)
    ensures
        score / 5 <= 9 ==> spec_delay_ms(score) == 200 - 20 * (score / 5),
        score / 5 >= 9 ==> spec_delay_ms(score) == 20,
        score < 5 ==> spec_delay_ms(score) == 200,
        score / 5 <= 8 ==> spec_delay_ms(score) - spec_delay_ms((score + 5) as u32) == 20,
{
}

/// Visible width of the score header's text, in terminal columns.
pub const HEADER_TEXT_WIDTH: usize = 49;

/// Terminal columns inside the board's frame: two per cell, and a space on
/// each side.
pub fn frame_width(w: i16) -> (fw: usize)
    requires
        w >= 0,
    ensures
        fw == 2 * w + 2,
{
    w as usize * 2 + 2
}

/// Spaces that fill the score header out to the frame's width.
pub fn header_pad(fw: usize) -> (pad: usize)
    ensures
        pad == (if fw >= HEADER_TEXT_WIDTH { fw - HEADER_TEXT_WIDTH } else { 0 }),
{
    if fw >= HEADER_TEXT_WIDTH { fw - HEADER_TEXT_WIDTH } else { 0 }
}

/// The level shown for a score: one more every 5 points.
pub fn level(score: u32) -> (lv: u32)
    ensures
        lv == score / 5 + 1,
{
    score / 5 + 1
}

/// The speed gauge for a level: filled segments up to 10, the rest empty.
pub fn speed_bar(lv: u32) -> (r: (usize, usize))
    ensures
        r.0 == (if lv < 10 { lv as int } else { 10 }),
        r.1 == (if lv < 10 { 10 - lv } else { 0 }),
        r.0 + r.1 == 10,
{
    let l = lv as usize;
    let filled = if l < 10 { l } else { 10 };
    let empty = if l < 10 { 10 - l } else { 0 };
    (filled, empty)
}

/// Rust's `/ 2` on integers: the quotient is rounded toward zero.
pub open spec fn half_toward_zero(v: int) -> int {
    if v >= 0 { v / 2 } else { -((-v) / 2) }
}

pub open spec fn clamp(v: int, lo: int, hi: int) -> int {
    if v < lo { lo } else if v > hi { hi } else { v }
}

/// The board for a terminal of `tw` columns by `th` rows: every cell is drawn
/// two columns wide, six columns and eight rows go to the frame and the
/// header; the board is kept between 10 and 31 cells wide and between 10
/// and 24 cells high.
pub fn grid_size(tw: u16, th: u16) -> (r: (i16, i16))
    requires
        tw as i16 >= -32762,
        th as i16 >= -32760,
    ensures
        r.0 == clamp(half_toward_zero(tw as i16 - 6), 10, 31),
        r.1 == clamp(th as i16 - 8, 10, 24),
{
    let w: i16 = tw as i16 - 6;
    let half: i16 = if w >= 0 { w / 2 } else { 0 };
    let gw: i16 = if half < 10 { 10 } else if half > 31 { 31 } else { half };
    let h: i16 = th as i16 - 8;
    let gh: i16 = if h < 10 { 10 } else if h > 24 { 24 } else { h };
    (gw, gh)
}

/// The terminal row where the game-over box is drawn, centred on a board of
/// `h` rows below a three-row header.
pub fn overlay_row(h: i16) -> (row: u16)
    ensures
        row == (if 3 + (h as u16) / 2 >= 5 { 3 + (h as u16) / 2 - 5 } else { 0 }),
{
    let mid: u16 = 3 + (h as u16) / 2;
    if mid >= 5 { mid - 5 } else { 0 }
}

/// In any reachable state the score is bounded by the board: the snake,
/// three cells longer than the score, never covers a cell twice.
pub proof fn lemma_score_bound(s: &Snake)
    requires
        s.wf(),
    ensures
        s.body@.len() == 3 + s.score,
        s.score + 3 <= s.width * s.height,
        s.body@.no_duplicates(),
{
    lemma_distinct_cells_fit(s.body@, s.width, s.height);
}
} // verus!
