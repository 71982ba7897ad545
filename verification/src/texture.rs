use vstd::prelude::*;

verus! {

/// The error the image crate reports when it cannot decode an image.
#[verifier::external_type_specification]
#[verifier::external_body]
pub struct ExImageError(image::ImageError);

/// An image decoded to 8-bit RGBA pixels, row after row.
pub struct Texture {
    width: u32,
    height: u32,
    pixels: Vec<u8>,
}

/// Why a texture could not be made.
#[derive(Debug, Clone, Copy, PartialEq, Eq)]
pub enum TextureError {
    /// The bytes are not an image in a format the decoder knows.
    Decode,
}

/// What the image crate makes of `bytes`: the format guessed from the
/// leading bytes, the image decoded in that format, converted to 8-bit RGBA.
/// The width, the height and the pixels, or `None` when no format is
/// recognised or the decoder of the format fails.
pub uninterp spec fn rgba_decoding(bytes: Seq<u8>) -> Option<(u32, u32, Seq<u8>)>;

/// `image::guess_format` on the bytes, then
/// `image::load_from_memory_with_format` in the guessed format, then
/// `DynamicImage::into_rgba8`: what `image::load_from_memory` does, except
/// that the format is passed on as a built-in one, so neither the format
/// detection hooks nor the decoding hooks that code elsewhere in the
/// process may register take part. The result is the decoding named by
/// `rgba_decoding`, an error exactly when that decoding fails, and on
/// success four bytes per pixel (the RGBA buffer is allocated as width times
/// height pixels of four bytes).
#[verifier::external_body]
fn decode_rgba(bytes: &[u8]) -> (r: Result<(u32, u32, Vec<u8>), image::ImageError>)
    ensures
        r is Ok <==> rgba_decoding(bytes@) is Some,
        r matches Ok((w, h, px)) ==> rgba_decoding(bytes@) == Some((w, h, px@)),
        r matches Ok((w, h, px)) ==> px@.len() == 4 * w * h,
{
    let format = match image::guess_format(bytes) {
        Ok(format) => format,
        Err(e) => return Err(e),
    };
    match image::load_from_memory_with_format(bytes, format) {
        Ok(img) => {
            let rgba = img.into_rgba8();
            let (w, h) = rgba.dimensions();
            Ok((w, h, rgba.into_raw()))
        },
        Err(e) => Err(e),
    }
}

impl Texture {
    pub closed spec fn width_view(&self) -> u32 {
        self.width
    }

    pub closed spec fn height_view(&self) -> u32 {
        self.height
    }

    pub closed spec fn pixels_view(&self) -> Seq<u8> {
        self.pixels@
    }

    pub fn width(&self) -> (r: u32)
        ensures
            r == self.width_view(),
    {
        self.width
    }

    pub fn height(&self) -> (r: u32)
        ensures
            r == self.height_view(),
    {
        self.height
    }

    /// The RGBA bytes, four per pixel, row after row.
    pub fn pixels(&self) -> (r: &[u8])
        ensures
            r@ == self.pixels_view(),
    {
        self.pixels.as_slice()
    }

    /// The texture a decoding yields: its size and pixels, or
    /// `TextureError::Decode` when the decoder failed.
    pub fn from_decoding(decoded: Result<(u32, u32, Vec<u8>), image::ImageError>) -> (r: Result<
        Texture,
        TextureError,
    >)
        ensures
            r is Ok <==> decoded is Ok,
            r is Err ==> r == Err::<Texture, TextureError>(TextureError::Decode),
            r matches Ok(t) ==> decoded matches Ok((w, h, px)) && t.width_view() == w
                && t.height_view() == h && t.pixels_view() == px@,
    {
        match decoded {
            Ok((width, height, pixels)) => Ok(Texture { width, height, pixels }),
            Err(_) => Err(TextureError::Decode),
        }
    }

    /// Decodes an image file held in memory (its format guessed from its
    /// first bytes) to an RGBA texture.
    pub fn decode(bytes: &[u8]) -> (r: Result<Texture, TextureError>)
        ensures
            r is Err <==> rgba_decoding(bytes@) is None,
            r is Err ==> r == Err::<Texture, TextureError>(TextureError::Decode),
            r matches Ok(t) ==> rgba_decoding(bytes@) == Some(
                (t.width_view(), t.height_view(), t.pixels_view()),
            ),
            r matches Ok(t) ==> t.pixels_view().len() == 4 * t.width_view() * t.height_view(),
    {
        Texture::from_decoding(decode_rgba(bytes))
    }
}

} // verus!
