use vstd::prelude::*;

use crate::header::{
    end_of_input, find_comment_close, header, lemma_comment_close_bounds, read_field, Header, DIGIT_ONE, DIGIT_SIX, HASH,
    MAGIC_P, NEWLINE, SPACE,
};
use crate::text::utf8_text;

verus! {

/// A PNM image that borrows its comment and pixel bytes from the parsed buffer.
#[derive(Clone, Debug)]
pub enum PNMImage<'a> {
    /// Binary PPM (P6) image
    PPMBinary {
        /// The width of the image
        width: usize,
        /// The height of the image
        height: usize,
        /// The maximum pixel value of the image
        maximum_pixel: usize,
        /// The comment associated with the image
        comment: &'a str,
        /// The pixel data of the image
        pixel_data: &'a [u8],
    },
}

/// The ways in which parsing a PNM image can fail.
#[derive(Debug)]
pub enum PNMError {
    /// The file is not in PNM format
    NotPNMFormat,
    /// The PNM format is not supported. Right now, only P6 is supported.
    UnsupportedPNMFormat,
    /// Error while parsing a UTF-8 encoded string
    UTF8Error,
    /// Error while parsing the image
    ParseError {
        /// The position of the error
        pos: usize,
        /// The byte that was encountered
        got: u8,
        /// Contextual information about the error
        ctx: &'static str,
    },
}

impl<'a> PNMImage<'a> {
    /// The image holds what `h` declares, with the bytes of `b` from `h.data_start`
    /// on as its pixel data.
    pub open spec fn holds_header(self, b: Seq<u8>, h: Header) -> bool {
        &&& self->width == h.width
        &&& self->height == h.height
        &&& self->maximum_pixel == h.maximum_pixel
        &&& self->comment@ == h.comment
        &&& 0 <= h.data_start <= b.len()
        &&& self->pixel_data@ == b.subrange(h.data_start, b.len() as int)
    }

    /// Parses a binary PPM image from a byte array, borrowing its comment and
    /// pixel data from `bytes`. An input that ends inside the header is refused
    /// with an "unexpected end of input" error at the index just past its end.
    pub fn from_parse<const N: usize>(bytes: &'a [u8; N]) -> (r: Result<Self, PNMError>)
        ensures
            match r {
                Ok(img) => header(bytes@) matches Ok(h) && img.holds_header(bytes@, h),
                Err(e) => header(bytes@) == Err::<Header, PNMError>(e),
            },
    {
        let b: &'a [u8] = bytes.as_slice();
        // magic number P6\n
        if b.len() < 1 || b[0] != MAGIC_P {
            return Err(PNMError::NotPNMFormat);
        }
        if b.len() < 2 || b[1] < DIGIT_ONE || b[1] > DIGIT_SIX {
            return Err(PNMError::NotPNMFormat);
        }
        if b[1] != DIGIT_SIX {
            return Err(PNMError::UnsupportedPNMFormat);
        }
        if b.len() < 3 {
            return Err(PNMError::ParseError { pos: b.len(), got: 0, ctx: "unexpected end of input." });
        }
        if b[2] != NEWLINE {
            return Err(PNMError::ParseError { pos: 2, got: b[2], ctx: "expected newline." });
        }
        // comment lines
        let mut idx: usize = 3;
        let mut comment: &'a str = "";
        proof {
            reveal_strlit("");
        }
        if b.len() > 3 && b[3] == HASH {
            match find_comment_close(b, 3) {
                None => {
                    return Err(
                        PNMError::ParseError { pos: b.len(), got: 0, ctx: "unexpected end of input." },
                    );
                },
                Some(e) => {
                    proof {
                        lemma_comment_close_bounds(b@, 3);
                    }
                    match utf8_text(&b[3..e]) {
                        None => {
                            return Err(PNMError::UTF8Error);
                        },
                        Some(text) => {
                            comment = text;
                            idx = e + 1;
                        },
                    }
                },
            }
        }
        // <width> <height>\n<maximum_pixel>\n
        let (width, idx) = match read_field(b, idx, SPACE) {
            Ok(f) => f,
            Err(e) => {
                return Err(e);
            },
        };
        let (height, idx) = match read_field(b, idx, NEWLINE) {
            Ok(f) => f,
            Err(e) => {
                return Err(e);
            },
        };
        let (maximum_pixel, idx) = match read_field(b, idx, NEWLINE) {
            Ok(f) => f,
            Err(e) => {
                return Err(e);
            },
        };
        proof {
            assert(header(bytes@) is Ok);
            assert(header(bytes@)->Ok_0.comment == comment@);
        }
        // the rest is raw pixel data
        let pixel_data = &b[idx..b.len()];
        Ok(PNMImage::PPMBinary { width, height, maximum_pixel, comment, pixel_data })
    }
}

impl PNMImage<'_> {
    /// The RGB triple at column `x` and row `y`: present when the pixel lies
    /// within the declared width and height and its three bytes lie within the
    /// pixel data, which is read row by row from the top left.
    pub open spec fn pixel_at(self, x: int, y: int) -> Option<(u8, u8, u8)> {
        let d = self->pixel_data@;
        let i = (x + y * self->width) * 3;
        if 0 <= x < self->width && 0 <= y < self->height && i + 3 <= d.len() {
            Some((d[i], d[i + 1], d[i + 2]))
        } else {
            None
        }
    }

    /// Returns the width of the PNM image.
    pub fn width(&self) -> (r: usize)
        ensures
            r == self->width,
    {
        let PNMImage::PPMBinary { width, .. } = *self;
        width
    }

    /// Returns the height of the PNM image.
    pub fn height(&self) -> (r: usize)
        ensures
            r == self->height,
    {
        let PNMImage::PPMBinary { height, .. } = *self;
        height
    }

    /// Returns the maximum pixel value of the PNM image.
    pub fn maximum_pixel(&self) -> (r: usize)
        ensures
            r == self->maximum_pixel,
    {
        let PNMImage::PPMBinary { maximum_pixel, .. } = *self;
        maximum_pixel
    }

    /// Returns the comment associated with the PNM image.
    pub fn comment(&self) -> (r: &str)
        ensures
            r@ == self->comment@,
    {
        let PNMImage::PPMBinary { comment, .. } = *self;
        comment
    }

    /// Returns the raw pixel bytes data of the PNM image.
    fn pixel_data(&self) -> (r: &[u8])
        ensures
            r@ == self->pixel_data@,
    {
        let PNMImage::PPMBinary { pixel_data, .. } = *self;
        pixel_data
    }

    /// Returns the RGB values of the pixel at the specified (x, y) coordinate.
    /// Returns `None` if the pixel is outside the bounds of the image: a column
    /// past the width does not run on into the next row.
    pub fn pixel_rgb(&self, x: usize, y: usize) -> (r: Option<(u8, u8, u8)>)
        ensures
            r == self.pixel_at(x as int, y as int),
    {
        let data = self.pixel_data();
        let len = data.len();
        if x >= self.width() || y >= self.height() {
            return None;
        }
        let idx = match y.checked_mul(self.width()) {
            Some(row) => match row.checked_add(x) {
                Some(p) => p.checked_mul(3),
                None => None,
            },
            None => None,
        };
        proof {
            let w = self->width as int;
            let p = x + y * w;
            assert(idx is None ==> p * 3 > usize::MAX) by (nonlinear_arith)
                requires
                    idx is None ==> (y * w > usize::MAX || y * w + x > usize::MAX || (y * w
                        + x) * 3 > usize::MAX),
                    p == x + y * w,
                    x >= 0,
                    y * w >= 0,
            ;
        }
        match idx {
            Some(i) => {
                if i < len && len - i >= 3 {
                    Some((data[i], data[i + 1], data[i + 2]))
                } else {
                    None
                }
            },
            None => None,
        }
    }
}

/// When the pixel data holds exactly width × height RGB triples, every pixel
/// inside the image is present, and a column at the width is absent on every row.
pub proof fn lemma_pixels_in_bounds(img: PNMImage, x: int, y: int)
    requires
        img->pixel_data@.len() == img->width * img->height * 3,
    ensures
        0 <= x < img->width && 0 <= y < img->height ==> img.pixel_at(x, y) is Some,
        x == img->width ==> img.pixel_at(x, y) is None,
{
    let w = img->width as int;
    let h = img->height as int;
    if 0 <= x < w && 0 <= y < h {
        assert((x + y * w) * 3 + 3 <= w * h * 3) by (nonlinear_arith)
            requires
                0 <= x < w,
                0 <= y < h,
        ;
    }
}

} // verus!
