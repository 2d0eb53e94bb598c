//! The screenshot boundary's verified part: the error type and the
//! conversion of ARGB pixels to the RGBA byte order an image encoder takes.
//! Encoding and file writing live with the caller.

use vstd::prelude::*;
use vstd::string::{StringExecFns, StrSliceExecFns};

verus! {

/// An error of a screenshot operation.
#[derive(Debug)]
pub enum ScreenshotError {
    IoError(String),
    EncodingError(String),
}

/// The rendered text of a screenshot error.
pub open spec fn screenshot_error_text(e: ScreenshotError) -> Seq<char> {
    match e {
        ScreenshotError::IoError(m) => "IO Error: "@ + m@,
        ScreenshotError::EncodingError(m) => "Encoding Error: "@ + m@,
    }
}

impl ScreenshotError {
    /// Render the error as text: its category prefix and its message.
    pub fn message(&self) -> (r: String)
        ensures
            r@ == screenshot_error_text(*self),
    {
        match self {
            ScreenshotError::IoError(m) => {
                let mut r = String::from_str("IO Error: ");
                r.append(m.as_str());
                r
            },
            ScreenshotError::EncodingError(m) => {
                let mut r = String::from_str("Encoding Error: ");
                r.append(m.as_str());
                r
            },
        }
    }
}

/// The four RGBA bytes of one ARGB pixel, in encoder order.
pub open spec fn rgba_of(pixel: u32) -> Seq<u8> {
    seq![
        ((pixel >> 16) & 0xFF) as u8,
        ((pixel >> 8) & 0xFF) as u8,
        (pixel & 0xFF) as u8,
        ((pixel >> 24) & 0xFF) as u8,
    ]
}

/// The RGBA byte stream of an ARGB pixel buffer.
pub open spec fn rgba_stream(data: Seq<u32>) -> Seq<Seq<u8>> {
    data.map_values(|p: u32| rgba_of(p))
}

/// Convert an ARGB pixel buffer to the flat RGBA byte order an image
/// encoder takes: red, green, blue, alpha for each pixel in turn.
pub fn pixels_to_rgba(data: &Vec<u32>) -> (r: Vec<u8>)
    ensures
        r@.len() == 4 * data@.len(),
        forall|i: int|
            0 <= i < data@.len() ==> r@.subrange(4 * i, 4 * i + 4) == rgba_of(#[trigger] data@[i]),
{
    let n = data.len();
    let mut r: Vec<u8> = Vec::new();
    let mut i: usize = 0;
    while i < n
        invariant
            i <= n,
            n == data@.len(),
            r@.len() == 4 * i,
            forall|j: int|
                0 <= j < i ==> r@.subrange(4 * j, 4 * j + 4) == rgba_of(#[trigger] data@[j]),
        decreases n - i,
    {
        let pixel = data[i];
        proof {
            assert(((pixel >> 16) & 0xFF) < 256) by (bit_vector);
            assert(((pixel >> 8) & 0xFF) < 256) by (bit_vector);
            assert((pixel & 0xFF) < 256) by (bit_vector);
            assert(((pixel >> 24) & 0xFF) < 256) by (bit_vector);
        }
        let ghost r0 = r@;
        r.push(((pixel >> 16) & 0xFF) as u8);
        r.push(((pixel >> 8) & 0xFF) as u8);
        r.push((pixel & 0xFF) as u8);
        r.push(((pixel >> 24) & 0xFF) as u8);
        i = i + 1;
        proof {
            assert forall|j: int| 0 <= j < i implies r@.subrange(4 * j, 4 * j + 4) == rgba_of(
                #[trigger] data@[j],
            ) by {
                if j < i - 1 {
                    assert(r@.subrange(4 * j, 4 * j + 4) =~= r0.subrange(4 * j, 4 * j + 4));
                } else {
                    assert(r@.subrange(4 * j, 4 * j + 4) =~= rgba_of(data@[j]));
                }
            }
        }
    }
    r
}

} // verus!
