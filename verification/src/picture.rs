use vstd::prelude::*;

verus! {

/// A picture as 8-bit RGBA pixels, row by row.
pub struct Picture {
    pub width: u32,
    pub height: u32,
    /// Four bytes per pixel: red, green, blue, alpha.
    pub rgba: Vec<u8>,
}

impl Picture {
    /// The buffer holds exactly the picture's pixels.
    pub open spec fn wf(&self) -> bool {
        self.rgba@.len() == 4 * self.width * self.height
    }
}

/// The pixels `image::imageops::resize` computes with the nearest-neighbour
/// filter from a `width` by `height` RGBA picture, for a
/// `new_width` by `new_height` one.
pub uninterp spec fn nearest_resized(width: u32, height: u32, rgba: Seq<u8>, new_width: u32, new_height: u32) -> Seq<u8>;

/// Calls `image::imageops::resize` with `FilterType::Nearest` on the
/// picture held in `rgba`. Claimed: the result is the function's pixels for
/// the new size, four bytes for each of its `new_width * new_height` pixels.
/// The buffer conversions around the call (`ImageBuffer::from_raw`, which
/// accepts a buffer of at least `4 * width * height` bytes, and `into_raw`)
/// cannot fail under the requirements, and the two size bounds keep the
/// output buffer and the intermediate `width` by `new_height` buffer within
/// `usize`, as `ImageBuffer::new` demands.
#[verifier::external_body]
fn resize_nearest(width: u32, height: u32, rgba: Vec<u8>, new_width: u32, new_height: u32) -> (out: Vec<u8>)
    requires
        rgba@.len() == 4 * width * height,
        4 * new_width * new_height <= usize::MAX,
        4 * width * new_height <= usize::MAX,
    ensures
        out@ == nearest_resized(width, height, rgba@, new_width, new_height),
        out@.len() == 4 * new_width * new_height,
{
    let img = image::RgbaImage::from_raw(width, height, rgba).unwrap();
    image::imageops::resize(&img, new_width, new_height, image::imageops::FilterType::Nearest).into_raw()
}

/// A copy of a byte buffer.
fn copy_bytes(a: &Vec<u8>) -> (c: Vec<u8>)
    ensures
        c@ == a@,
{
    crate::frames::copy_row(a)
}

/// The picture scaled to exactly `new_width` by `new_height` pixels with the
/// nearest-neighbour filter.
pub fn resize_picture(p: &Picture, new_width: u32, new_height: u32) -> (q: Picture)
    requires
        p.wf(),
        4 * new_width * new_height <= usize::MAX,
        4 * p.width * new_height <= usize::MAX,
    ensures
        q.wf(),
        q.width == new_width,
        q.height == new_height,
        q.rgba@ == nearest_resized(p.width, p.height, p.rgba@, new_width, new_height),
{
    let rgba = resize_nearest(p.width, p.height, copy_bytes(&p.rgba), new_width, new_height);
    Picture { width: new_width, height: new_height, rgba }
}

/// The colour of every pixel as an RGB triple, alpha dropped.
pub fn rgb_triples(p: &Picture) -> (rgb: Vec<u8>)
    requires
        p.wf(),
    ensures
        rgb@.len() == 3 * p.width * p.height,
        forall|i: int, c: int| 0 <= i < p.width * p.height && 0 <= c < 3 ==> #[trigger] rgb@[3 * i + c]
            == p.rgba@[4 * i + c],
{
    assert(4 * p.width * p.height == 4 * (p.width * p.height)) by (nonlinear_arith);
    assert(3 * p.width * p.height == 3 * (p.width * p.height)) by (nonlinear_arith);
    let n: usize = p.rgba.len() / 4;
    let mut rgb: Vec<u8> = Vec::new();
    let mut i: usize = 0;
    while i < n
        invariant
            n == p.width * p.height,
            p.rgba@.len() == 4 * n,
            3 * p.width * p.height == 3 * n,
            i <= n,
            rgb@.len() == 3 * i,
            forall|j: int, c: int| 0 <= j < i && 0 <= c < 3 ==> #[trigger] rgb@[3 * j + c] == p.rgba@[4 * j + c],
        decreases n - i,
    {
        assert(4 * i + 3 < p.rgba.len());
        rgb.push(p.rgba[4 * i]);
        rgb.push(p.rgba[4 * i + 1]);
        rgb.push(p.rgba[4 * i + 2]);
        assert forall|j: int, c: int| 0 <= j < i + 1 && 0 <= c < 3 implies #[trigger] rgb@[3 * j + c] == p.rgba@[4 * j + c] by {
            if j == i {
                assert(3 * j + c == 3 * i + c);
            }
        }
        i += 1;
    }
    rgb
}

} // verus!
