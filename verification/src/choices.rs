use vstd::prelude::*;
use vstd::string::StringExecFns;
use crate::text::{is_just, chars_of, strip_bounds, string_of, trimmed_of};

verus! {

/// The tools on the main menu.
#[derive(Clone, Copy, PartialEq, Eq, Structural, Debug)]
pub enum MenuChoice {
    Image,
    Snake,
    Video,
    Exit,
    Invalid,
}

/// Reads a main-menu answer: `1` image to text art, `2` snake, `3` video
/// player, `0` exit; anything else is invalid.
pub fn menu_choice(answer: &str) -> (m: MenuChoice)
    ensures
        m == (if answer@ == seq!['1'] {
            MenuChoice::Image
        } else if answer@ == seq!['2'] {
            MenuChoice::Snake
        } else if answer@ == seq!['3'] {
            MenuChoice::Video
        } else if answer@ == seq!['0'] {
            MenuChoice::Exit
        } else {
            MenuChoice::Invalid
        }),
{
    if is_just(answer, '1') {
        MenuChoice::Image
    } else if is_just(answer, '2') {
        MenuChoice::Snake
    } else if is_just(answer, '3') {
        MenuChoice::Video
    } else if is_just(answer, '0') {
        MenuChoice::Exit
    } else {
        MenuChoice::Invalid
    }
}

/// Reads a resolution answer as an output width in columns: `1` 120,
/// `2` 200, `4` 400, `5` 500, `6` 600, anything else 300.
pub fn resolution_for(answer: &str) -> (w: u32)
    ensures
        w == (if answer@ == seq!['1'] {
            120u32
        } else if answer@ == seq!['2'] {
            200
        } else if answer@ == seq!['4'] {
            400
        } else if answer@ == seq!['5'] {
            500
        } else if answer@ == seq!['6'] {
            600
        } else {
            300
        }),
{
    if is_just(answer, '1') {
        120
    } else if is_just(answer, '2') {
        200
    } else if is_just(answer, '4') {
        400
    } else if is_just(answer, '5') {
        500
    } else if is_just(answer, '6') {
        600
    } else {
        300
    }
}

/// Colour output at 400 columns or more is heavy to play back: the video
/// player warns before it starts.
pub fn heavy_color(width: u32, color: bool) -> (r: bool)
    ensures
        r == (width >= 400 && color),
{
    width >= 400 && color
}

/// Whether an answer picks the second option (`2`): grayscale output,
/// custom adjustments, or the coloured file format.
pub fn picks_second(answer: &str) -> (r: bool)
    ensures
        r == (answer@ == seq!['2']),
{
    is_just(answer, '2')
}

/// Whether a colour-mode answer keeps colour: anything but `2`.
pub fn wants_color(answer: &str) -> (r: bool)
    ensures
        r == (answer@ != seq!['2']),
{
    !is_just(answer, '2')
}

/// Whether a yes/no answer is yes: `y` in either case.
pub fn is_yes(answer: &str) -> (r: bool)
    ensures
        r == (answer@ == seq!['y'] || answer@ == seq!['Y']),
{
    is_just(answer, 'y') || is_just(answer, 'Y')
}

/// Whether the art is saved as is, colour codes included, in an `.ans`
/// file: the second format (`2`) was picked.
pub fn save_colored(format_answer: &str) -> (r: bool)
    ensures
        r == (format_answer@ == seq!['2']),
{
    is_just(format_answer, '2')
}

/// The file name offered for saved art: the picture's name, then
/// `_color.ans` for coloured art or `_ascii.txt` for plain text.
pub fn default_output_name(stem: &str, colored: bool) -> (name: String)
    ensures
        name@ == stem@ + (if colored { "_color.ans"@ } else { "_ascii.txt"@ }),
{
    let mut name = String::from_str(stem);
    if colored {
        name.append("_color.ans");
    } else {
        name.append("_ascii.txt");
    }
    name
}

/// The file to write: the answer, or the offered name when the answer is empty.
pub fn output_path(answer: String, offered: String) -> (path: String)
    ensures
        path@ == (if answer@.len() == 0 { offered@ } else { answer@ }),
{
    if answer.as_str().unicode_len() == 0 {
        offered
    } else {
        answer
    }
}

/// A path as typed, without the double quotes around it.
pub fn unquote(path: &str) -> (r: String)
    ensures
        r@ == trimmed_of(path@, '"'),
{
    let cs = chars_of(path);
    let (from, to) = strip_bounds(cs.as_slice(), false, '"');
    string_of(cs.as_slice(), from, to)
}

} // verus!
