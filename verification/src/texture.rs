//! Decoded textures: RGBA, eight bits per channel.

use crate::error::{AssetError, AssetResult};
use crate::meta::TextureMeta;
use crate::text::join2;
use vstd::prelude::*;

verus! {

/// A decoded texture: RGBA8, row-major, top-to-bottom.
#[derive(Debug)]
pub struct DecodedTexture {
    pub width: u32,
    pub height: u32,
    /// `width * height * 4` bytes.
    pub rgba: Vec<u8>,
    /// Metadata of the sidecar file, if one exists.
    pub meta: TextureMeta,
}

/// The three color channels of a pixel differ by at most 2 from one to the
/// next.
pub open spec fn near_gray(r: u8, g: u8, b: u8) -> bool {
    -2 <= r - g <= 2 && -2 <= g - b <= 2
}

/// What `image::load_from_memory` and the conversion to RGBA8 make of the
/// bytes of an image file: width, height and pixels, or the error's text.
pub uninterp spec fn decoded_image(bytes: Seq<u8>) -> Result<(u32, u32, Seq<u8>), Seq<char>>;

/// Calls `image::load_from_memory` and hands out the image as RGBA8 with its
/// dimensions, or the error as text. The outcome is a function of the bytes,
/// as no decoding hook is registered with the crate, and an image has four
/// bytes per pixel.
#[verifier::external_body]
fn decode_image(bytes: &[u8]) -> (r: Result<(u32, u32, Vec<u8>), String>)
    ensures
        match r {
            Ok(t) => decoded_image(bytes@) == Ok::<(u32, u32, Seq<u8>), Seq<char>>(
                (t.0, t.1, t.2@),
            ) && t.2@.len() == t.0 * t.1 * 4,
            Err(m) => decoded_image(bytes@) == Err::<(u32, u32, Seq<u8>), Seq<char>>(m@),
        },
{
    let image = image::load_from_memory(bytes).map_err(|e| e.to_string())?;
    let buffer = image.to_rgba8();
    let (width, height) = buffer.dimensions();
    Ok((width, height, buffer.into_raw()))
}

impl DecodedTexture {
    /// The pixel bytes fill the dimensions.
    pub open spec fn wf(&self) -> bool {
        self.rgba.len() == self.width * self.height * 4
    }

    pub open spec fn pixel_spec(&self, x: int, y: int) -> Seq<u8> {
        self.rgba@.subrange((y * self.width + x) * 4, (y * self.width + x) * 4 + 4)
    }

    pub fn pixel(&self, x: u32, y: u32) -> (r: [u8; 4])
        requires
            (y * self.width + x) * 4 + 4 <= self.rgba.len(),
            (y * self.width + x) * 4 <= u32::MAX,
        ensures
            r@ == self.pixel_spec(x as int, y as int),
    {
        proof {
            assert(0 <= y * self.width <= y * self.width + x) by (nonlinear_arith)
                requires
                    y >= 0,
                    self.width >= 0,
                    x >= 0,
            ;
        }
        let i: usize = ((y * self.width + x) * 4) as usize;
        let r = [self.rgba[i], self.rgba[i + 1], self.rgba[i + 2], self.rgba[i + 3]];
        assert(r@ =~= self.pixel_spec(x as int, y as int));
        r
    }

    /// True when every pixel's channels are nearly equal (a tint candidate).
    pub fn is_grayscale_content(&self) -> (r: bool)
        ensures
            r == forall|i: int|
                0 <= i && 4 * i + 3 < self.rgba.len() ==> near_gray(
                    self.rgba@[4 * i],
                    #[trigger] self.rgba@[4 * i + 1],
                    self.rgba@[4 * i + 2],
                ),
    {
        let mut k: usize = 0;
        let n: usize = self.rgba.len() / 4;
        while k < n
            invariant
                k <= n == self.rgba.len() / 4,
                forall|i: int|
                    0 <= i < k ==> near_gray(
                        self.rgba@[4 * i],
                        #[trigger] self.rgba@[4 * i + 1],
                        self.rgba@[4 * i + 2],
                    ),
            decreases n - k,
        {
            let r: i16 = self.rgba[4 * k] as i16;
            let g: i16 = self.rgba[4 * k + 1] as i16;
            let b: i16 = self.rgba[4 * k + 2] as i16;
            if r - g > 2 || g - r > 2 || g - b > 2 || b - g > 2 {
                assert(!near_gray(
                    self.rgba@[4 * k],
                    self.rgba@[4 * k + 1],
                    self.rgba@[4 * k + 2],
                ));
                return false;
            }
            k += 1;
        }
        true
    }

    /// A copy of the texture.
    pub fn copied(&self) -> (r: DecodedTexture)
        ensures
            r.width == self.width,
            r.height == self.height,
            r.rgba@ == self.rgba@,
            r.meta == self.meta,
    {
        let rgba = self.rgba.clone();
        assert(rgba@ =~= self.rgba@);
        DecodedTexture { width: self.width, height: self.height, rgba, meta: self.meta }
    }
}

/// Decodes the bytes of an image file.
pub fn decode_png(path: &str, bytes: &[u8], meta: TextureMeta) -> (r: AssetResult<DecodedTexture>)
    ensures
        match r {
            Ok(t) => {
                &&& t.wf()
                &&& t.meta == meta
                &&& decoded_image(bytes@) == Ok::<(u32, u32, Seq<u8>), Seq<char>>(
                    (t.width, t.height, t.rgba@),
                )
            },
            Err(e) => {
                &&& e.path@ == path@
                &&& decoded_image(bytes@) matches Err(text) && e.message@
                    == "image decode failed: "@ + text
            },
        },
{
    match decode_image(bytes) {
        Ok((width, height, rgba)) => Ok(DecodedTexture { width, height, rgba, meta }),
        Err(text) => Err(
            AssetError {
                path: path.to_owned(),
                message: join2("image decode failed: ", text.as_str()),
            },
        ),
    }
}

/// A pixel is four bytes in the row of its height, at the column of its place.
pub proof fn law_pixels_lie_in_rows(t: DecodedTexture, x: int, y: int, c: int)
    requires
        t.wf(),
        0 <= x < t.width,
        0 <= y < t.height,
        0 <= c < 4,
    ensures
        t.pixel_spec(x, y).len() == 4,
        t.pixel_spec(x, y)[c] == t.rgba@[y * t.width * 4 + x * 4 + c],
{
    assert(0 <= (y * t.width + x) * 4 && (y * t.width + x) * 4 + 4 <= t.width * t.height * 4 && (y
        * t.width + x) * 4 == y * t.width * 4 + x * 4) by (nonlinear_arith)
        requires
            0 <= x < t.width,
            0 <= y < t.height,
    ;
}

/// Gray is what has three channels alike; a channel that is off by three or
/// more from its neighbor is a color.
pub proof fn law_gray_has_like_channels(v: u8, r: u8, g: u8, b: u8)
    ensures
        near_gray(v, v, v),
        r - g >= 3 || g - r >= 3 || g - b >= 3 || b - g >= 3 ==> !near_gray(r, g, b),
        -2 <= r - g <= 2 && -2 <= g - b <= 2 ==> near_gray(r, g, b),
{
}

} // verus!
