use vstd::prelude::*;
use crate::decimal::{decimal, push_decimal};

verus! {

/// One frame of a cached video: either every text row, or only the rows
/// that differ from the previous frame, each with its row index.
pub enum Frame {
    Key(Vec<Vec<u8>>),
    Delta(Vec<(usize, Vec<u8>)>),
}

/// The rows of a picture as sequences of bytes.
pub open spec fn rows_of(rows: Seq<Vec<u8>>) -> Seq<Seq<u8>> {
    rows.map_values(|r: Vec<u8>| r@)
}

/// The changed rows of a delta as (row index, bytes) pairs.
pub open spec fn changes_of(d: Seq<(usize, Vec<u8>)>) -> Seq<(usize, Seq<u8>)> {
    d.map_values(|e: (usize, Vec<u8>)| (e.0, e.1@))
}

/// Whether row `i` of `rows` must be sent after `prev`: it is new, or differs.
pub open spec fn row_changed(prev: Seq<Seq<u8>>, rows: Seq<Seq<u8>>, i: int) -> bool {
    i >= prev.len() || prev[i] != rows[i]
}

/// The changed rows among the first `n` rows of `rows`, in row order.
pub open spec fn changed_upto(prev: Seq<Seq<u8>>, rows: Seq<Seq<u8>>, n: nat) -> Seq<(usize, Seq<u8>)>
    decreases n,
{
    if n == 0 {
        seq![]
    } else {
        let before = changed_upto(prev, rows, (n - 1) as nat);
        if row_changed(prev, rows, n - 1) {
            before.push(((n - 1) as usize, rows[n - 1]))
        } else {
            before
        }
    }
}

/// Every row of `rows` that differs from `prev`, in row order.
pub open spec fn changed_rows(prev: Seq<Seq<u8>>, rows: Seq<Seq<u8>>) -> Seq<(usize, Seq<u8>)> {
    changed_upto(prev, rows, rows.len())
}

/// Whether frame `f` is how `rows` is cached after `prev` (`None` for the
/// first frame): the first frame, and any frame where more than half of the
/// rows changed, is a key frame; otherwise only the changed rows are kept.
pub open spec fn encodes(f: Frame, prev: Option<Seq<Seq<u8>>>, rows: Seq<Seq<u8>>) -> bool {
    let key = match prev {
        None => true,
        Some(p) => changed_rows(p, rows).len() > rows.len() / 2,
    };
    if key {
        f matches Frame::Key(r) && rows_of(r@) == rows
    } else {
        f matches Frame::Delta(d) && changes_of(d@) == changed_rows(prev->0, rows)
    }
}

/// The screen after writing one changed row: a row inside the screen is
/// overwritten, a row just below it is added.
pub open spec fn put_row(screen: Seq<Seq<u8>>, e: (usize, Seq<u8>)) -> Seq<Seq<u8>> {
    if e.0 < screen.len() {
        screen.update(e.0 as int, e.1)
    } else if e.0 == screen.len() {
        screen.push(e.1)
    } else {
        screen
    }
}

/// The screen after writing the rows of a delta, in order.
pub open spec fn apply_changes(screen: Seq<Seq<u8>>, d: Seq<(usize, Seq<u8>)>) -> Seq<Seq<u8>>
    decreases d.len(),
{
    if d.len() == 0 {
        screen
    } else {
        put_row(apply_changes(screen, d.drop_last()), d.last())
    }
}

/// The screen after showing a frame: a key frame is drawn whole, a delta
/// frame rewrites its rows on top of what is shown.
pub open spec fn show_frame(screen: Seq<Seq<u8>>, f: Frame) -> Seq<Seq<u8>> {
    match f {
        Frame::Key(r) => rows_of(r@),
        Frame::Delta(d) => apply_changes(screen, changes_of(d@)),
    }
}

/// The screen after showing the first `n` frames on an empty screen.
pub open spec fn replay(frames: Seq<Frame>, n: nat) -> Seq<Seq<u8>>
    decreases n,
{
    if n == 0 {
        seq![]
    } else {
        show_frame(replay(frames, (n - 1) as nat), frames[n - 1])
    }
}

/// Whether two byte rows are equal.
pub fn same_row(a: &Vec<u8>, b: &Vec<u8>) -> (r: bool)
    ensures
        r == (a@ == b@),
{
    if a.len() != b.len() {
        return false;
    }
    let n = a.len();
    let mut i: usize = 0;
    while i < n
        invariant
            n == a@.len(),
            n == b@.len(),
            i <= n,
            forall|j: int| 0 <= j < i ==> a@[j] == b@[j],
        decreases n - i,
    {
        if a[i] != b[i] {
            return false;
        }
        i += 1;
    }
    assert(a@ =~= b@);
    true
}

/// A copy of a byte row.
pub fn copy_row(a: &Vec<u8>) -> (c: Vec<u8>)
    ensures
        c@ == a@,
{
    let mut c: Vec<u8> = Vec::new();
    let n = a.len();
    let mut i: usize = 0;
    while i < n
        invariant
            n == a@.len(),
            i <= n,
            c@ == a@.subrange(0, i as int),
        decreases n - i,
    {
        c.push(a[i]);
        assert(a@.subrange(0, i as int + 1) =~= a@.subrange(0, i as int).push(a@[i as int]));
        i += 1;
    }
    assert(a@.subrange(0, n as int) =~= a@);
    c
}

/// A copy of a picture's rows.
pub fn copy_rows(rows: &Vec<Vec<u8>>) -> (c: Vec<Vec<u8>>)
    ensures
        rows_of(c@) == rows_of(rows@),
{
    let mut c: Vec<Vec<u8>> = Vec::new();
    let n = rows.len();
    let mut i: usize = 0;
    while i < n
        invariant
            n == rows@.len(),
            i <= n,
            rows_of(c@) == rows_of(rows@.subrange(0, i as int)),
        decreases n - i,
    {
        c.push(copy_row(&rows[i]));
        assert(rows_of(rows@.subrange(0, i as int + 1)) =~= rows_of(rows@.subrange(0, i as int)).push(rows@[i as int]@));
        i += 1;
    }
    assert(rows@.subrange(0, n as int) =~= rows@);
    c
}

/// The rows of `rows` that differ from `prev` (or lie below its last row),
/// each with its index, in row order.
pub fn changed(prev: &Vec<Vec<u8>>, rows: &Vec<Vec<u8>>) -> (d: Vec<(usize, Vec<u8>)>)
    ensures
        changes_of(d@) == changed_rows(rows_of(prev@), rows_of(rows@)),
{
    let ghost p = rows_of(prev@);
    let ghost r = rows_of(rows@);
    let mut d: Vec<(usize, Vec<u8>)> = Vec::new();
    let n = rows.len();
    let mut i: usize = 0;
    while i < n
        invariant
            n == rows@.len(),
            p == rows_of(prev@),
            r == rows_of(rows@),
            i <= n,
            changes_of(d@) == changed_upto(p, r, i as nat),
        decreases n - i,
    {
        let differs = if i < prev.len() {
            !same_row(&prev[i], &rows[i])
        } else {
            true
        };
        assert(differs == row_changed(p, r, i as int));
        if differs {
            d.push((i, copy_row(&rows[i])));
            assert(changes_of(d@) =~= changed_upto(p, r, i as nat).push((i, r[i as int])));
        }
        i += 1;
    }
    d
}

/// Caches a video as key and delta frames: the first frame is a key frame;
/// each later frame keeps only the rows that changed since the frame before
/// it, unless more than half of its rows changed, which makes it a key frame.
pub fn encode_frames(frames: Vec<Vec<Vec<u8>>>) -> (cache: Vec<Frame>)
    ensures
        cache@.len() == frames@.len(),
        forall|k: int| 0 <= k < frames@.len() ==> encodes(
            #[trigger] cache@[k],
            if k == 0 { None } else { Some(rows_of(frames@[k - 1]@)) },
            rows_of(frames@[k]@),
        ),
{
    let mut cache: Vec<Frame> = Vec::new();
    let n = frames.len();
    let mut k: usize = 0;
    while k < n
        invariant
            n == frames@.len(),
            k <= n,
            cache@.len() == k,
            forall|j: int| 0 <= j < k ==> encodes(
                #[trigger] cache@[j],
                if j == 0 { None } else { Some(rows_of(frames@[j - 1]@)) },
                rows_of(frames@[j]@),
            ),
        decreases n - k,
    {
        let rows = &frames[k];
        let frame = if k == 0 {
            Frame::Key(copy_rows(rows))
        } else {
            let dl = changed(&frames[k - 1], rows);
            if dl.len() > rows.len() / 2 {
                Frame::Key(copy_rows(rows))
            } else {
                Frame::Delta(dl)
            }
        };
        cache.push(frame);
        k += 1;
    }
    cache
}

/// Number of key frames in a cache.
pub open spec fn keys_upto(cache: Seq<Frame>, n: nat) -> nat
    decreases n,
{
    if n == 0 {
        0
    } else {
        keys_upto(cache, (n - 1) as nat) + if cache[n - 1] is Key { 1nat } else { 0nat }
    }
}

/// Counts the key frames of a cache.
pub fn count_keys(cache: &Vec<Frame>) -> (n: usize)
    ensures
        n == keys_upto(cache@, cache@.len()),
{
    let len = cache.len();
    let mut n: usize = 0;
    let mut i: usize = 0;
    while i < len
        invariant
            len == cache@.len(),
            i <= len,
            n == keys_upto(cache@, i as nat),
            n <= i,
        decreases len - i,
    {
        match &cache[i] {
            Frame::Key(_) => {
                n += 1;
            },
            Frame::Delta(_) => {},
        }
        i += 1;
    }
    n
}

/// The screen `prev` after writing the changed rows among the first `n`
/// rows of `rows`: those rows of `rows`, then what is left of `prev`.
#[verifier::rlimit(30)]
proof fn lemma_apply_changed_upto(prev: Seq<Seq<u8>>, rows: Seq<Seq<u8>>, n: nat)
    requires
        n <= rows.len(),
        n <= usize::MAX,
    ensures
        apply_changes(prev, changed_upto(prev, rows, n)) == if n <= prev.len() {
            rows.subrange(0, n as int) + prev.subrange(n as int, prev.len() as int)
        } else {
            rows.subrange(0, n as int)
        },
    decreases n,
{
    if n == 0 {
        assert(prev.subrange(0, prev.len() as int) =~= prev);
        assert(rows.subrange(0, 0) + prev =~= prev);
    } else {
        let m = (n - 1) as nat;
        lemma_apply_changed_upto(prev, rows, m);
        let before = changed_upto(prev, rows, m);
        let s = apply_changes(prev, before);
        if row_changed(prev, rows, m as int) {
            let e = (m as usize, rows[m as int]);
            assert(before.push(e).drop_last() =~= before);
            assert(apply_changes(prev, before.push(e)) == put_row(s, e));
            if n <= prev.len() {
                assert(put_row(s, e) =~= rows.subrange(0, n as int) + prev.subrange(n as int, prev.len() as int));
            } else {
                assert(put_row(s, e) =~= rows.subrange(0, n as int));
            }
        } else {
            assert(m < prev.len() && prev[m as int] == rows[m as int]);
            assert(s =~= rows.subrange(0, n as int) + prev.subrange(n as int, prev.len() as int));
        }
    }
}

/// A delta frame restores its picture: writing the changed rows over the
/// previous picture gives the new one, provided the picture did not lose rows.
pub proof fn lemma_apply_changed(prev: Seq<Seq<u8>>, rows: Seq<Seq<u8>>)
    requires
        prev.len() <= rows.len(),
        rows.len() <= usize::MAX,
    ensures
        apply_changes(prev, changed_rows(prev, rows)) == rows,
{
    lemma_apply_changed_upto(prev, rows, rows.len());
    if rows.len() == prev.len() {
        assert(rows.subrange(0, rows.len() as int) + prev.subrange(prev.len() as int, prev.len() as int) =~= rows);
    } else {
        assert(rows.subrange(0, rows.len() as int) =~= rows);
    }
}

/// Playing back an encoded video shows every frame exactly: after the
/// first `k + 1` cached frames the screen holds frame `k`, as long as no
/// frame has fewer rows than the one before it.
pub proof fn lemma_replay_shows_frames(frames: Seq<Vec<Vec<u8>>>, cache: Seq<Frame>, k: int)
    requires
        cache.len() == frames.len(),
        forall|j: int| 0 <= j < frames.len() ==> encodes(
            #[trigger] cache[j],
            if j == 0 { None } else { Some(rows_of(frames[j - 1]@)) },
            rows_of(frames[j]@),
        ),
        forall|j: int| 0 < j < frames.len() ==> frames[j - 1]@.len() <= #[trigger] frames[j]@.len(),
        forall|j: int| 0 <= j < frames.len() ==> #[trigger] frames[j]@.len() <= usize::MAX,
        0 <= k < frames.len(),
    ensures
        replay(cache, (k + 1) as nat) == rows_of(frames[k]@),
    decreases k,
{
    let rows = rows_of(frames[k]@);
    assert(encodes(cache[k], if k == 0 { None } else { Some(rows_of(frames[k - 1]@)) }, rows));
    if k > 0 {
        lemma_replay_shows_frames(frames, cache, k - 1);
        let prev = rows_of(frames[k - 1]@);
        assert(frames[k - 1]@.len() <= frames[k]@.len());
        lemma_apply_changed(prev, rows);
    }
}

/// Moves the cursor to the top-left corner.
pub const HOME: [u8; 3] = [27, 91, 72];

/// Row bytes drawn one after another, concatenated.
pub open spec fn concat_rows(rows: Seq<Seq<u8>>) -> Seq<u8>
    decreases rows.len(),
{
    if rows.len() == 0 {
        seq![]
    } else {
        concat_rows(rows.drop_last()) + rows.last()
    }
}

/// The bytes that rewrite the changed rows of a delta: for each, a cursor
/// move to the start of its (one-based) terminal line, then the row.
pub open spec fn delta_bytes(d: Seq<(usize, Seq<u8>)>) -> Seq<u8>
    decreases d.len(),
{
    if d.len() == 0 {
        seq![]
    } else {
        delta_bytes(d.drop_last()) + seq![27u8, 91u8] + decimal(d.last().0 as nat + 1) + seq![59u8, 49u8, 72u8]
            + d.last().1
    }
}

/// What showing a frame sends to the terminal: a key frame goes home and
/// draws every row; a delta frame moves to each changed row and redraws it.
pub open spec fn spec_frame_bytes(f: Frame) -> Seq<u8> {
    match f {
        Frame::Key(r) => HOME@ + concat_rows(rows_of(r@)),
        Frame::Delta(d) => delta_bytes(changes_of(d@)),
    }
}

/// The terminal output that shows frame `f` over the frame before it.
pub fn frame_bytes(f: &Frame) -> (out: Vec<u8>)
    requires
        f matches Frame::Delta(d) ==> forall|i: int| 0 <= i < d@.len() ==> #[trigger] d@[i].0 < usize::MAX,
    ensures
        out@ == spec_frame_bytes(*f),
{
    let mut out: Vec<u8> = Vec::new();
    match f {
        Frame::Key(rows) => {
            crate::decimal::push_all(&mut out, &HOME);
            let n = rows.len();
            let mut i: usize = 0;
            while i < n
                invariant
                    n == rows@.len(),
                    i <= n,
                    out@ == HOME@ + concat_rows(rows_of(rows@.subrange(0, i as int))),
                decreases n - i,
            {
                crate::decimal::push_all(&mut out, rows[i].as_slice());
                assert(rows_of(rows@.subrange(0, i as int + 1)).drop_last() =~= rows_of(rows@.subrange(0, i as int)));
                i += 1;
            }
            assert(rows@.subrange(0, n as int) =~= rows@);
        },
        Frame::Delta(d) => {
            let n = d.len();
            let mut i: usize = 0;
            while i < n
                invariant
                    n == d@.len(),
                    i <= n,
                    forall|j: int| 0 <= j < d@.len() ==> #[trigger] d@[j].0 < usize::MAX,
                    out@ == delta_bytes(changes_of(d@.subrange(0, i as int))),
                decreases n - i,
            {
                let ghost before = out@;
                out.push(27u8);
                out.push(91u8);
                push_decimal(&mut out, (d[i].0 + 1) as u64);
                out.push(59u8);
                out.push(49u8);
                out.push(72u8);
                crate::decimal::push_all(&mut out, d[i].1.as_slice());
                assert(changes_of(d@.subrange(0, i as int + 1)).drop_last() =~= changes_of(d@.subrange(0, i as int)));
                assert(out@ =~= delta_bytes(changes_of(d@.subrange(0, i as int + 1))));
                i += 1;
            }
            assert(d@.subrange(0, n as int) =~= d@);
        },
    }
    out
}

} // verus!
