use vstd::prelude::*;

verus! {

/// Calls `String::push`, which appends one character to the string.
#[verifier::external_body]
fn string_push(s: &mut String, c: char)
    ensures
        final(s)@ == old(s)@.push(c),
{
    s.push(c);
}

/// The characters of `s`, in order.
pub fn chars_of(s: &str) -> (v: Vec<char>)
    ensures
        v@ == s@,
{
    let n = s.unicode_len();
    let mut v: Vec<char> = Vec::new();
    let mut i: usize = 0;
    while i < n
        invariant
            n == s@.len(),
            i <= n,
            v@ == s@.subrange(0, i as int),
        decreases n - i,
    {
        v.push(s.get_char(i));
        assert(s@.subrange(0, i as int + 1) =~= s@.subrange(0, i as int).push(s@[i as int]));
        i += 1;
    }
    assert(s@.subrange(0, n as int) =~= s@);
    v
}

/// A string holding the characters `cs[from..to]`.
pub fn string_of(cs: &[char], from: usize, to: usize) -> (s: String)
    requires
        from <= to <= cs@.len(),
    ensures
        s@ == cs@.subrange(from as int, to as int),
{
    let mut s = String::new();
    let mut i: usize = from;
    while i < to
        invariant
            from <= i <= to <= cs@.len(),
            s@ == cs@.subrange(from as int, i as int),
        decreases to - i,
    {
        string_push(&mut s, cs[i]);
        assert(cs@.subrange(from as int, i as int + 1) =~= cs@.subrange(from as int, i as int).push(cs@[i as int]));
        i += 1;
    }
    s
}

/// Whether `s` consists of the single character `c`.
pub fn is_just(s: &str, c: char) -> (r: bool)
    ensures
        r == (s@ == seq![c]),
{
    if s.unicode_len() == 1 {
        let d = s.get_char(0);
        if d == c {
            assert(s@ =~= seq![c]);
            true
        } else {
            false
        }
    } else {
        false
    }
}

/// The characters with the Unicode White_Space property.
pub open spec fn is_white(c: char) -> bool {
    let u = c as u32;
    ||| 0x09 <= u <= 0x0D
    ||| u == 0x20
    ||| u == 0x85
    ||| u == 0xA0
    ||| u == 0x1680
    ||| 0x2000 <= u <= 0x200A
    ||| u == 0x2028
    ||| u == 0x2029
    ||| u == 0x202F
    ||| u == 0x205F
    ||| u == 0x3000
}

/// Whether `c` has the Unicode White_Space property.
pub fn white(c: char) -> (r: bool)
    ensures
        r == is_white(c),
{
    let u = c as u32;
    (0x09 <= u && u <= 0x0D) || u == 0x20 || u == 0x85 || u == 0xA0 || u == 0x1680 || (0x2000 <= u
        && u <= 0x200A) || u == 0x2028 || u == 0x2029 || u == 0x202F || u == 0x205F || u == 0x3000
}

/// Whether a character is stripped: white space when `white_only`,
/// otherwise exactly `c`.
pub open spec fn strippable(x: char, white_only: bool, c: char) -> bool {
    if white_only { is_white(x) } else { x == c }
}

fn is_strippable(x: char, white_only: bool, c: char) -> (r: bool)
    ensures
        r == strippable(x, white_only, c),
{
    if white_only { white(x) } else { x == c }
}

/// `s` without the stripped characters at its start.
pub open spec fn strip_start(s: Seq<char>, white_only: bool, c: char) -> Seq<char>
    decreases s.len(),
{
    if s.len() > 0 && strippable(s[0], white_only, c) {
        strip_start(s.drop_first(), white_only, c)
    } else {
        s
    }
}

/// `s` without the matching characters at its end.
pub open spec fn strip_end(s: Seq<char>, white_only: bool, c: char) -> Seq<char>
    decreases s.len(),
{
    if s.len() > 0 && strippable(s.last(), white_only, c) {
        strip_end(s.drop_last(), white_only, c)
    } else {
        s
    }
}

/// `s` without leading and trailing white space.
pub open spec fn trimmed(s: Seq<char>) -> Seq<char> {
    strip_end(strip_start(s, true, ' '), true, ' ')
}

/// `s` without leading and trailing copies of `c`.
pub open spec fn trimmed_of(s: Seq<char>, c: char) -> Seq<char> {
    strip_end(strip_start(s, false, c), false, c)
}

proof fn lemma_strip_start_skip(s: Seq<char>, white_only: bool, c: char, i: int)
    requires
        0 <= i <= s.len(),
        forall|j: int| 0 <= j < i ==> strippable(s[j], white_only, c),
    ensures
        strip_start(s, white_only, c) == strip_start(s.subrange(i, s.len() as int), white_only, c),
    decreases i,
{
    if i > 0 {
        assert(s.drop_first().subrange(i - 1, s.drop_first().len() as int) =~= s.subrange(i, s.len() as int));
        lemma_strip_start_skip(s.drop_first(), white_only, c, i - 1);
    } else {
        assert(s.subrange(0, s.len() as int) =~= s);
    }
}

proof fn lemma_strip_end_take(s: Seq<char>, white_only: bool, c: char, i: int)
    requires
        0 <= i <= s.len(),
        forall|j: int| i <= j < s.len() ==> strippable(s[j], white_only, c),
    ensures
        strip_end(s, white_only, c) == strip_end(s.subrange(0, i), white_only, c),
    decreases s.len() - i,
{
    if i < s.len() {
        assert(s.drop_last().subrange(0, i) =~= s.subrange(0, i));
        lemma_strip_end_take(s.drop_last(), white_only, c, i);
    } else {
        assert(s.subrange(0, s.len() as int) =~= s);
    }
}

/// The bounds `from..to` of `cs` left after stripping white space (when
/// `white_only`) or copies of `c` from both ends.
#[verifier::rlimit(30)]
pub fn strip_bounds(cs: &[char], white_only: bool, c: char) -> (r: (usize, usize))
    ensures
        r.0 <= r.1 <= cs@.len(),
        cs@.subrange(r.0 as int, r.1 as int) == strip_end(strip_start(cs@, white_only, c), white_only, c),
{
    let n = cs.len();
    let mut from: usize = 0;
    while from < n && is_strippable(cs[from], white_only, c)
        invariant
            n == cs@.len(),
            from <= n,
            forall|j: int| 0 <= j < from ==> strippable(cs@[j], white_only, c),
        decreases n - from,
    {
        from += 1;
    }
    proof {
        lemma_strip_start_skip(cs@, white_only, c, from as int);
    }
    let ghost rest = cs@.subrange(from as int, n as int);
    assert(strip_start(rest, white_only, c) == rest);
    let mut to: usize = n;
    while to > from && is_strippable(cs[to - 1], white_only, c)
        invariant
            n == cs@.len(),
            from <= to <= n,
            rest == cs@.subrange(from as int, n as int),
            forall|j: int| to <= j < n ==> strippable(cs@[j], white_only, c),
        decreases to - from,
    {
        to -= 1;
    }
    proof {
        assert forall|j: int| (to - from) <= j < rest.len() implies strippable(rest[j], white_only, c) by {
            assert(rest[j] == cs@[from + j]);
        }
        lemma_strip_end_take(rest, white_only, c, (to - from) as int);
        let kept = rest.subrange(0, (to - from) as int);
        assert(kept =~= cs@.subrange(from as int, to as int));
        if kept.len() > 0 {
            assert(kept.last() == cs@[to - 1]);
        }
    }
    (from, to)
}

/// Pieces of `s` between the separators `sep`: one more piece than there
/// are separators, empty pieces included.
pub open spec fn split_on<T>(s: Seq<T>, sep: T) -> Seq<Seq<T>>
    decreases s.len(),
{
    if s.len() == 0 {
        seq![seq![]]
    } else {
        let p = split_on(s.drop_last(), sep);
        if s.last() == sep {
            p.push(seq![])
        } else {
            p.update(p.len() - 1, p.last().push(s.last()))
        }
    }
}

pub proof fn lemma_split_nonempty<T>(s: Seq<T>, sep: T)
    ensures
        split_on(s, sep).len() >= 1,
    decreases s.len(),
{
    if s.len() > 0 {
        lemma_split_nonempty(s.drop_last(), sep);
    }
}

/// Appending text without separators extends the last piece.
pub proof fn lemma_split_append<T>(s: Seq<T>, r: Seq<T>, sep: T)
    requires
        forall|i: int| 0 <= i < r.len() ==> r[i] != sep,
    ensures
        split_on(s + r, sep) == split_on(s, sep).drop_last().push(split_on(s, sep).last() + r),
    decreases r.len(),
{
    lemma_split_nonempty(s, sep);
    if r.len() == 0 {
        assert(s + r =~= s);
        let p = split_on(s, sep);
        assert(p.last() + r =~= p.last());
        assert(p.drop_last().push(p.last()) =~= p);
    } else {
        let r0 = r.drop_last();
        lemma_split_append(s, r0, sep);
        assert((s + r).drop_last() =~= s + r0);
        assert((s + r).last() == r.last());
        let p = split_on(s, sep);
        let q = split_on(s + r0, sep);
        assert(q == p.drop_last().push(p.last() + r0));
        assert(q.last().push(r.last()) =~= p.last() + r);
        assert(q.update(q.len() - 1, q.last().push(r.last())) =~= p.drop_last().push(p.last() + r));
    }
}

/// Splits `cs[from..to]` at every `sep`.
pub fn split_at_char(cs: &[char], from: usize, to: usize, sep: char) -> (parts: Vec<Vec<char>>)
    requires
        from <= to <= cs@.len(),
    ensures
        parts@.len() == split_on(cs@.subrange(from as int, to as int), sep).len(),
        forall|i: int| 0 <= i < parts@.len() ==> #[trigger] parts@[i]@ == split_on(
            cs@.subrange(from as int, to as int),
            sep,
        )[i],
{
    let mut parts: Vec<Vec<char>> = Vec::new();
    let mut cur: Vec<char> = Vec::new();
    let mut i: usize = from;
    while i < to
        invariant
            from <= i <= to <= cs@.len(),
            parts@.len() + 1 == split_on(cs@.subrange(from as int, i as int), sep).len(),
            forall|j: int| 0 <= j < parts@.len() ==> #[trigger] parts@[j]@ == split_on(
                cs@.subrange(from as int, i as int),
                sep,
            )[j],
            cur@ == split_on(cs@.subrange(from as int, i as int), sep).last(),
        decreases to - i,
    {
        let ghost before = cs@.subrange(from as int, i as int);
        let ghost after = cs@.subrange(from as int, i as int + 1);
        assert(after.drop_last() =~= before);
        proof {
            lemma_split_nonempty(before, sep);
        }
        if cs[i] == sep {
            parts.push(cur);
            cur = Vec::new();
        } else {
            cur.push(cs[i]);
        }
        i += 1;
    }
    parts.push(cur);
    proof {
        lemma_split_nonempty(cs@.subrange(from as int, to as int), sep);
    }
    parts
}

/// The value of a string of ASCII digits.
pub open spec fn digits_value(s: Seq<char>) -> nat
    decreases s.len(),
{
    if s.len() == 0 {
        0
    } else {
        digits_value(s.drop_last()) * 10 + (s.last() as nat - 48) as nat
    }
}

pub open spec fn all_digits(s: Seq<char>) -> bool {
    forall|i: int| 0 <= i < s.len() ==> '0' <= #[trigger] s[i] <= '9'
}

/// Rust's reading of an unsigned integer of at most `max`: an optional `+`,
/// then one or more ASCII digits whose value does not exceed `max`.
pub open spec fn parse_unsigned(s: Seq<char>, max: nat) -> Option<nat> {
    let d = if s.len() > 0 && s[0] == '+' { s.drop_first() } else { s };
    if d.len() > 0 && all_digits(d) && digits_value(d) <= max {
        Some(digits_value(d))
    } else {
        None
    }
}

/// Reads an unsigned integer of at most `max` from `cs`.
pub fn parse_bounded(cs: &[char], max: u64) -> (r: Option<u64>)
    ensures
        r matches Some(v) ==> parse_unsigned(cs@, max as nat) == Some(v as nat),
        r is None ==> parse_unsigned(cs@, max as nat) is None,
{
    let n = cs.len();
    let start: usize = if n > 0 && cs[0] == '+' { 1 } else { 0 };
    let ghost d = if cs@.len() > 0 && cs@[0] == '+' { cs@.drop_first() } else { cs@ };
    assert(d =~= cs@.subrange(start as int, n as int));
    if start == n {
        return None;
    }
    let mut acc: u64 = 0;
    let mut over = false;
    let mut i: usize = start;
    while i < n
        invariant
            n == cs@.len(),
            start <= i <= n,
            d == cs@.subrange(start as int, n as int),
            d == (if cs@.len() > 0 && cs@[0] == '+' { cs@.drop_first() } else { cs@ }),
            all_digits(cs@.subrange(start as int, i as int)),
            over <==> digits_value(cs@.subrange(start as int, i as int)) > max,
            !over ==> acc == digits_value(cs@.subrange(start as int, i as int)),
        decreases n - i,
    {
        let c = cs[i];
        if c < '0' || c > '9' {
            assert(d[i - start] == c);
            assert(!all_digits(d)) by {
                assert(!('0' <= d[i - start] <= '9'));
            }
            return None;
        }
        let ghost before = cs@.subrange(start as int, i as int);
        let ghost after = cs@.subrange(start as int, i as int + 1);
        assert(after.drop_last() =~= before);
        assert(after.last() == c);
        let digit = (c as u32 - 48) as u64;
        if !over {
            assert(digit > max || acc > (max - digit) / 10 <==> acc * 10 + digit > max) by (nonlinear_arith)
                requires
                    0 <= digit <= 9,
                    0 <= acc,
                    0 <= max,
            ;
            if digit > max || acc > (max - digit) / 10 {
                over = true;
            } else {
                acc = acc * 10 + digit;
            }
        }
        i += 1;
    }
    if over {
        None
    } else {
        Some(acc)
    }
}

} // verus!
