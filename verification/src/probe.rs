use vstd::prelude::*;
use crate::text::{chars_of, strip_bounds, split_at_char, parse_bounded, string_of, trimmed, split_on, parse_unsigned};

verus! {

/// A video stream's description as reported by the prober: picture size,
/// frame rate (as written: `num` or `num/den`) and frame count.
pub struct ProbeInfo {
    pub width: u32,
    pub height: u32,
    /// The frame rate as written, or its numerator when written as a ratio.
    pub rate_num: String,
    /// The frame rate's denominator when written as a ratio.
    pub rate_den: Option<String>,
    /// Number of frames, 0 when not reported.
    pub frames: u64,
}

/// `s` split at the first `c`, or `None` when `c` does not occur.
pub open spec fn split_once(s: Seq<char>, c: char) -> Option<(Seq<char>, Seq<char>)>
    decreases s.len(),
{
    if s.len() == 0 {
        None
    } else if s[0] == c {
        Some((seq![], s.drop_first()))
    } else {
        match split_once(s.drop_first(), c) {
            Some(p) => Some((seq![s[0]] + p.0, p.1)),
            None => None,
        }
    }
}

proof fn lemma_split_once_at(s: Seq<char>, c: char, i: int)
    requires
        0 <= i <= s.len(),
        forall|j: int| 0 <= j < i ==> s[j] != c,
        i < s.len() ==> s[i] == c,
    ensures
        i < s.len() ==> split_once(s, c) == Some((s.subrange(0, i), s.subrange(i + 1, s.len() as int))),
        i == s.len() ==> split_once(s, c) is None,
    decreases i,
{
    if i > 0 {
        lemma_split_once_at(s.drop_first(), c, i - 1);
        if i < s.len() {
            assert(seq![s[0]] + s.drop_first().subrange(0, i - 1) =~= s.subrange(0, i));
            assert(s.drop_first().subrange(i, s.drop_first().len() as int) =~= s.subrange(i + 1, s.len() as int));
        }
    } else {
        if s.len() > 0 {
            assert(s.drop_first() =~= s.subrange(1, s.len() as int));
        }
    }
}

/// The fields of the prober's reply: the reply without surrounding white
/// space, split at commas.
pub open spec fn probe_fields(text: Seq<char>) -> Seq<Seq<char>> {
    split_on(trimmed(text), ',')
}

/// Reads the prober's one-line reply `width,height,rate,frames`. The reply
/// is read when it has at least three fields and the first two are unsigned
/// 32-bit integers; the rate is split at its first `/`; the frame count is
/// the fourth field when it is an unsigned 64-bit integer, otherwise 0.
pub fn parse_probe(text: &str) -> (r: Option<ProbeInfo>)
    ensures
        r is Some <==> ({
            let f = probe_fields(text@);
            &&& f.len() >= 3
            &&& parse_unsigned(f[0], u32::MAX as nat) is Some
            &&& parse_unsigned(f[1], u32::MAX as nat) is Some
        }),
        r matches Some(p) ==> ({
            let f = probe_fields(text@);
            &&& parse_unsigned(f[0], u32::MAX as nat) == Some(p.width as nat)
            &&& parse_unsigned(f[1], u32::MAX as nat) == Some(p.height as nat)
            &&& match split_once(f[2], '/') {
                Some(parts) => p.rate_num@ == parts.0 && (p.rate_den matches Some(d) && d@ == parts.1),
                None => p.rate_num@ == f[2] && p.rate_den is None,
            }
            &&& p.frames == (if f.len() >= 4 && parse_unsigned(f[3], u64::MAX as nat) is Some {
                parse_unsigned(f[3], u64::MAX as nat)->0
            } else {
                0
            })
        }),
{
    let cs = chars_of(text);
    let (from, to) = strip_bounds(cs.as_slice(), true, ' ');
    let parts = split_at_char(cs.as_slice(), from, to, ',');
    let ghost f = probe_fields(text@);
    assert(cs@.subrange(from as int, to as int) == trimmed(text@));
    if parts.len() < 3 {
        return None;
    }
    let width = match parse_bounded(parts[0].as_slice(), u32::MAX as u64) {
        Some(v) => v as u32,
        None => {
            return None;
        },
    };
    let height = match parse_bounded(parts[1].as_slice(), u32::MAX as u64) {
        Some(v) => v as u32,
        None => {
            return None;
        },
    };
    let rate = &parts[2];
    let n = rate.len();
    let mut i: usize = 0;
    while i < n && rate[i] != '/'
        invariant
            n == rate@.len(),
            i <= n,
            forall|j: int| 0 <= j < i ==> rate@[j] != '/',
        decreases n - i,
    {
        i += 1;
    }
    proof {
        lemma_split_once_at(rate@, '/', i as int);
    }
    let (rate_num, rate_den) = if i < n {
        (string_of(rate.as_slice(), 0, i), Some(string_of(rate.as_slice(), i + 1, n)))
    } else {
        (string_of(rate.as_slice(), 0, n), None)
    };
    assert(rate@.subrange(0, n as int) =~= rate@);
    let frames = if parts.len() >= 4 {
        match parse_bounded(parts[3].as_slice(), u64::MAX) {
            Some(v) => v,
            None => 0,
        }
    } else {
        0
    };
    Some(ProbeInfo { width, height, rate_num, rate_den, frames })
}

} // verus!
