use vstd::prelude::*;
use vstd::string::StringExecFns;

verus! {

/// Segments of the progress bar.
pub const BAR_SEGMENTS: usize = 20;

/// Width of a banner between its corners.
pub const BANNER_WIDTH: usize = 64;

/// Progress of `done` out of `total` (a total of 0 counts as 1): the
/// percentage, rounded down and capped at 100, and the number of filled
/// bar segments, one per 5 percent.
pub fn progress(done: u64, total: u64) -> (r: (u64, usize))
    requires
        done * 100 <= u64::MAX,
    ensures
        r.0 == (if done * 100 / (if total == 0 { 1 } else { total as int }) < 100 {
            done * 100 / (if total == 0 { 1 } else { total as int })
        } else {
            100
        }),
        r.1 == r.0 / 5,
        r.1 <= BAR_SEGMENTS,
{
    let t = if total == 0 { 1 } else { total };
    let q = done * 100 / t;
    let pct = if q < 100 { q } else { 100 };
    (pct, (pct / 5) as usize)
}

/// Fill characters a banner needs after its title: the title, framed by
/// two characters and two spaces, and the fill make up the banner width.
pub fn banner_fill(title: &str) -> (n: usize)
    ensures
        n == (if title@.len() + 4 < BANNER_WIDTH { BANNER_WIDTH - title@.len() - 4 } else { 0 }),
{
    let len = title.unicode_len();
    if len < BANNER_WIDTH - 4 {
        BANNER_WIDTH - 4 - len
    } else {
        0
    }
}

/// Places where a program `name` may be installed when it is not found on
/// the search path, in the order they are tried: the package manager's link
/// directory under the user profile `profile`, then three common install
/// directories.
pub fn bin_candidates(name: &str, profile: &str) -> (v: Vec<String>)
    ensures
        v@.len() == 4,
        v@[0]@ == profile@ + "\\AppData\\Local\\Microsoft\\WinGet\\Links\\"@ + name@ + ".exe"@,
        v@[1]@ == "C:\\ffmpeg\\bin"@ + "\\"@ + name@ + ".exe"@,
        v@[2]@ == "C:\\Program Files\\ffmpeg\\bin"@ + "\\"@ + name@ + ".exe"@,
        v@[3]@ == "C:\\ProgramData\\chocolatey\\bin"@ + "\\"@ + name@ + ".exe"@,
{
    let mut v: Vec<String> = Vec::new();
    let mut first = String::from_str(profile);
    first.append("\\AppData\\Local\\Microsoft\\WinGet\\Links\\");
    first.append(name);
    first.append(".exe");
    v.push(first);
    let mut second = String::from_str("C:\\ffmpeg\\bin");
    second.append("\\");
    second.append(name);
    second.append(".exe");
    v.push(second);
    let mut third = String::from_str("C:\\Program Files\\ffmpeg\\bin");
    third.append("\\");
    third.append(name);
    third.append(".exe");
    v.push(third);
    let mut fourth = String::from_str("C:\\ProgramData\\chocolatey\\bin");
    fourth.append("\\");
    fourth.append(name);
    fourth.append(".exe");
    v.push(fourth);
    v
}

/// Where to run a program from: its bare name when it runs from the search
/// path, otherwise the first of the install places that exists, otherwise
/// the bare name.
pub fn pick_installed(name: &str, on_path: bool, candidates: &Vec<String>, exists: &Vec<bool>) -> (p: String)
    requires
        exists@.len() == candidates@.len(),
    ensures
        on_path ==> p@ == name@,
        !on_path && (forall|j: int| 0 <= j < exists@.len() ==> !exists@[j]) ==> p@ == name@,
        forall|i: int| 0 <= i < exists@.len() && !on_path && exists@[i] && (forall|j: int| 0 <= j < i ==> !exists@[j])
            ==> p@ == candidates@[i]@,
{
    if on_path {
        return String::from_str(name);
    }
    let n = exists.len();
    let mut i: usize = 0;
    while i < n
        invariant
            n == exists@.len(),
            n == candidates@.len(),
            !on_path,
            i <= n,
            forall|j: int| 0 <= j < i ==> !exists@[j],
        decreases n - i,
    {
        if exists[i] {
            return candidates[i].clone();
        }
        i += 1;
    }
    String::from_str(name)
}

} // verus!
