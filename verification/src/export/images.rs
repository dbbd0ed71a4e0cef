//! Encoding the pages of an archive.
use crate::export::names::ArchiveImageFormat;
use vstd::prelude::*;

verus! {

/// How good the images of an archive are, from 1 to 100.
#[derive(Clone, Copy, Debug, PartialEq, Eq, Structural)]
pub struct ExportConfig {
    pub jpeg_quality: u8,
    pub webp_quality: u8,
}

impl Default for ExportConfig {
    fn default() -> (r: Self)
        ensures
            r == (ExportConfig { jpeg_quality: 90, webp_quality: 85 }),
    {
        ExportConfig { jpeg_quality: 90, webp_quality: 85 }
    }
}

/// The nearest number from 1 to 100.
pub open spec fn clamped(q: u8) -> u8 {
    if q < 1 {
        1
    } else if q > 100 {
        100
    } else {
        q
    }
}

fn clamp(q: u8) -> (r: u8)
    ensures
        r == clamped(q),
{
    if q < 1 {
        1
    } else if q > 100 {
        100
    } else {
        q
    }
}

impl ExportConfig {
    /// The settings with each number in its range.
    pub fn normalized(self) -> (r: Self)
        ensures
            r == (ExportConfig {
                jpeg_quality: clamped(self.jpeg_quality),
                webp_quality: clamped(self.webp_quality),
            }),
    {
        ExportConfig {
            jpeg_quality: clamp(self.jpeg_quality),
            webp_quality: clamp(self.webp_quality),
        }
    }
}

/// An image of eight bits for each of red, green, blue and opacity, row by row.
#[derive(Debug)]
pub struct RgbaImage {
    pub width: u32,
    pub height: u32,
    pub pixels: Vec<u8>,
}

impl RgbaImage {
    /// There are four bytes for each pixel.
    pub open spec fn wf(self) -> bool {
        self.pixels@.len() == self.width * self.height * 4
    }
}

/// A channel of a pixel on white: `value` where it is opaque, 255 where it is clear.
pub open spec fn on_white(value: u8, alpha: u8) -> u8 {
    ((value * alpha + 255 * (255 - alpha) + 127) / 255) as u8
}

/// The pixels on white, without opacity.
pub open spec fn matted(pixels: Seq<u8>) -> Seq<u8> {
    Seq::new(
        (pixels.len() / 4) * 3,
        |i: int| on_white(pixels[(i / 3) * 4 + i % 3], pixels[(i / 3) * 4 + 3]),
    )
}

proof fn lemma_on_white(value: u8, alpha: u8)
    ensures
        0 <= value * alpha <= 255 * alpha,
        0 <= (value * alpha + 255 * (255 - alpha) + 127) / 255 <= 255,
{
    assert(0 <= value * alpha <= 255 * alpha) by (nonlinear_arith)
        requires
            0 <= value <= 255,
            0 <= alpha,
    ;
}

/// An opaque pixel keeps its color, a clear one is white.
pub proof fn lemma_matte_ends(value: u8)
    ensures
        on_white(value, 255) == value,
        on_white(value, 0) == 255,
{
    assert(value * 255 + 127 == 255 * value + 127);
    assert((255 * value + 127) / 255 == value);
}

fn matte(pixels: &Vec<u8>) -> (r: Vec<u8>)
    ensures
        r@ == matted(pixels@),
{
    let n: usize = pixels.len() / 4;
    let mut out: Vec<u8> = Vec::new();
    let mut i: usize = 0;
    while i < n
        invariant
            n == pixels.len() / 4,
            i <= n,
            out@ == matted(pixels@).take(i * 3),
        decreases n - i,
    {
        let alpha: u8 = pixels[i * 4 + 3];
        let mut channel: usize = 0;
        while channel < 3
            invariant
                n == pixels.len() / 4,
                i < n,
                channel <= 3,
                alpha == pixels@[i * 4 + 3],
                out@ == matted(pixels@).take(i * 3 + channel),
            decreases 3 - channel,
        {
            let value: u8 = pixels[i * 4 + channel];
            proof {
                lemma_on_white(value, alpha);
                let k = i * 3 + channel;
                assert(k / 3 == i && k % 3 == channel);
                assert(matted(pixels@)[k] == on_white(value, alpha));
                assert(matted(pixels@).take(k + 1) =~= matted(pixels@).take(k).push(
                    matted(pixels@)[k],
                ));
            }
            let mixed: u32 = (value as u32 * alpha as u32 + 255 * (255 - alpha as u32) + 127) / 255;
            out.push(mixed as u8);
            channel += 1;
        }
        i += 1;
    }
    assert(matted(pixels@).take(i * 3) =~= matted(pixels@));
    out
}

/// The PNG file that `image::codecs::png::PngEncoder` makes of pixels at its best compression with
/// adaptive filters; none where it fails.
pub uninterp spec fn png_file(pixels: Seq<u8>, width: u32, height: u32) -> Option<Seq<u8>>;

/// `image::codecs::png::PngEncoder::new_with_quality` and `write_image` on pixels of four bytes. The
/// number of bytes has to be that of the pixels, else the encoder panics. An image without pixels is
/// refused. Of the error nothing is stated but when it comes.
#[verifier::external_body]
fn encode_png_bytes(pixels: &Vec<u8>, width: u32, height: u32) -> (r: Result<Vec<u8>, String>)
    requires
        pixels@.len() == width * height * 4,
    ensures
        match png_file(pixels@, width, height) {
            Some(bytes) => r matches Ok(file) && file@ == bytes,
            None => r is Err,
        },
        width == 0 || height == 0 ==> r is Err,
{
    let mut bytes = Vec::new();
    let best = image::codecs::png::CompressionType::Best;
    let filter = image::codecs::png::FilterType::Adaptive;
    let encoder = image::codecs::png::PngEncoder::new_with_quality(&mut bytes, best, filter);
    let color = image::ExtendedColorType::Rgba8;
    match image::ImageEncoder::write_image(encoder, pixels, width, height, color) {
        Ok(()) => Ok(bytes),
        Err(error) => Err(error.to_string()),
    }
}

/// The JPEG file that `image::codecs::jpeg::JpegEncoder` makes of pixels of three bytes; none where
/// it fails.
pub uninterp spec fn jpeg_file(pixels: Seq<u8>, width: u32, height: u32, quality: u8) -> Option<
    Seq<u8>,
>;

/// `image::codecs::jpeg::JpegEncoder::new_with_quality` and `write_image` on pixels of three bytes.
/// The number of bytes has to be that of the pixels, else the encoder panics. It takes an image whose
/// edges have at least one pixel and at most as many as two bytes count, and no other. Of the error
/// nothing is stated but when it comes.
#[verifier::external_body]
fn encode_jpeg_bytes(pixels: &Vec<u8>, width: u32, height: u32, quality: u8) -> (r: Result<
    Vec<u8>,
    String,
>)
    requires
        pixels@.len() == width * height * 3,
        1 <= quality <= 100,
    ensures
        match jpeg_file(pixels@, width, height, quality) {
            Some(bytes) => r matches Ok(file) && file@ == bytes,
            None => r is Err,
        },
        r.is_ok() == (0 < width && width <= 65535 && 0 < height && height <= 65535),
{
    let mut bytes = Vec::new();
    let encoder = image::codecs::jpeg::JpegEncoder::new_with_quality(&mut bytes, quality);
    let color = image::ExtendedColorType::Rgb8;
    match image::ImageEncoder::write_image(encoder, pixels, width, height, color) {
        Ok(()) => Ok(bytes),
        Err(error) => Err(error.to_string()),
    }
}

/// A page as a PNG file.
pub fn encode_png(image: &RgbaImage) -> (r: Result<Vec<u8>, String>)
    requires
        image.wf(),
    ensures
        match png_file(image.pixels@, image.width, image.height) {
            Some(bytes) => r matches Ok(file) && file@ == bytes,
            None => r is Err,
        },
        image.width == 0 || image.height == 0 ==> r is Err,
{
    encode_png_bytes(&image.pixels, image.width, image.height)
}

/// A page that is encoded, or that is left to an encoder that takes its quality as a fraction.
#[derive(Debug)]
pub enum EncodedPage {
    File(Vec<u8>),
    Webp { quality: u8 },
}

/// Encodes a page. JPEG knows no opacity, so the page is put on white first.
pub fn encode(image: &RgbaImage, format: ArchiveImageFormat, config: ExportConfig) -> (r: Result<
    EncodedPage,
    String,
>)
    requires
        image.wf(),
    ensures
        match format {
            ArchiveImageFormat::Png => match png_file(image.pixels@, image.width, image.height) {
                Some(bytes) => r matches Ok(EncodedPage::File(file)) && file@ == bytes,
                None => r is Err,
            },
            ArchiveImageFormat::Jpeg => match jpeg_file(
                matted(image.pixels@),
                image.width,
                image.height,
                clamped(config.jpeg_quality),
            ) {
                Some(bytes) => r matches Ok(EncodedPage::File(file)) && file@ == bytes,
                None => r is Err,
            },
            ArchiveImageFormat::Webp => r == Ok::<EncodedPage, String>(
                EncodedPage::Webp { quality: clamped(config.webp_quality) },
            ),
        },
        format == ArchiveImageFormat::Png && (image.width == 0 || image.height == 0) ==> r is Err,
        format == ArchiveImageFormat::Jpeg ==> (r is Ok <==> 1 <= image.width <= 65535 && 1
            <= image.height <= 65535),
{
    let config = config.normalized();
    match format {
        ArchiveImageFormat::Png => match encode_png_bytes(
            &image.pixels,
            image.width,
            image.height,
        ) {
            Ok(bytes) => Ok(EncodedPage::File(bytes)),
            Err(error) => Err(error),
        },
        ArchiveImageFormat::Jpeg => {
            let rgb = matte(&image.pixels);
            proof {
                let w = image.width as int;
                let h = image.height as int;
                assert(w * h * 4 == (w * h) * 4);
                assert(image.pixels@.len() / 4 == w * h);
            }
            match encode_jpeg_bytes(&rgb, image.width, image.height, config.jpeg_quality) {
                Ok(bytes) => Ok(EncodedPage::File(bytes)),
                Err(error) => Err(error),
            }
        },
        ArchiveImageFormat::Webp => Ok(EncodedPage::Webp { quality: config.webp_quality }),
    }
}

// ---------------------------------------------------------------------------------------------
// Thumbnails
// ---------------------------------------------------------------------------------------------

/// The longest edge that an image is made to fit. The pixels of a square of it can be held.
pub const MAX_EDGE: u32 = 4096;

/// The longest edge of a thumbnail.
pub const THUMBNAIL_EDGE: u32 = 128;

/// An image made smaller, with the size that it had.
#[derive(Debug)]
pub struct Shrunk {
    pub source_width: u32,
    pub source_height: u32,
    pub image: RgbaImage,
}

/// Why there is no thumbnail.
#[derive(Clone, Copy, Debug, PartialEq, Eq, Structural)]
pub enum ThumbnailFault {
    /// The file is no image that can be read.
    Undecodable,
    /// The image has no pixels.
    Empty,
}

/// `image::load_from_memory`, `DynamicImage::thumbnail` and `DynamicImage::to_rgba8`: the image of a
/// file, made as large as a square of `edge` pixels holds it, and at least one pixel wide and high.
/// Four bytes stand for each pixel. Which colors they are, and so whether a file is taken, is not
/// stated: decoders work with the instructions that the machine has.
#[verifier::external_body]
pub fn shrink_file(file: &Vec<u8>, edge: u32) -> (r: Option<Shrunk>)
    requires
        0 < edge <= MAX_EDGE,
    ensures
        r matches Some(shrunk) ==> shrunk.image.wf() && 1 <= shrunk.image.width <= edge && 1
            <= shrunk.image.height <= edge,
{
    let source = image::load_from_memory(file).ok()?;
    let small = source.thumbnail(edge, edge).to_rgba8();
    let (width, height) = small.dimensions();
    let image = RgbaImage { width, height, pixels: small.into_raw() };
    Some(Shrunk { source_width: source.width(), source_height: source.height(), image })
}

/// The thumbnail, given the image made smaller.
pub fn thumbnail_of(shrunk: Option<Shrunk>) -> (r: Result<RgbaImage, ThumbnailFault>)
    ensures
        r == match shrunk {
            Some(shrunk) => if shrunk.source_width == 0 || shrunk.source_height == 0 {
                Err::<RgbaImage, _>(ThumbnailFault::Empty)
            } else {
                Ok(shrunk.image)
            },
            None => Err(ThumbnailFault::Undecodable),
        },
{
    match shrunk {
        Some(shrunk) => {
            if shrunk.source_width == 0 || shrunk.source_height == 0 {
                Err(ThumbnailFault::Empty)
            } else {
                Ok(shrunk.image)
            }
        },
        None => Err(ThumbnailFault::Undecodable),
    }
}

/// The thumbnail of a page's file: what [`thumbnail_of`] makes of the file as it was shrunk.
pub fn thumbnail(file: &Vec<u8>) -> (r: Result<RgbaImage, ThumbnailFault>)
    ensures
        exists|shrunk: Option<Shrunk>|
            {
                &&& #[trigger] call_ensures(shrink_file, (file, THUMBNAIL_EDGE), shrunk)
                &&& call_ensures(thumbnail_of, (shrunk,), r)
            },
        r matches Ok(image) ==> image.wf() && 1 <= image.width <= THUMBNAIL_EDGE && 1
            <= image.height <= THUMBNAIL_EDGE,
{
    let shrunk = shrink_file(file, THUMBNAIL_EDGE);
    thumbnail_of(shrunk)
}

// ---------------------------------------------------------------------------------------------
// Previews
// ---------------------------------------------------------------------------------------------

/// The longest edge of a preview.
pub const PREVIEW_EDGE: u32 = 1024;

/// `image::DynamicImage::resize` with the Lanczos filter, and `to_rgba8`: the image made as large as
/// a square of `edge` pixels holds it, so that one of its edges is that long. Which colors it has is
/// not stated: the filter computes with the machine's floating point numbers.
#[verifier::external_body]
pub fn resize_image(image: &RgbaImage, edge: u32) -> (r: RgbaImage)
    requires
        image.wf(),
        image.width > 0,
        image.height > 0,
        0 < edge <= MAX_EDGE,
    ensures
        r.wf(),
        1 <= r.width <= edge,
        1 <= r.height <= edge,
        r.width == edge || r.height == edge,
{
    let pixels = image.pixels.clone();
    let buffer = image::RgbaImage::from_raw(image.width, image.height, pixels).unwrap_or_default();
    let filter = image::imageops::FilterType::Lanczos3;
    let resized = image::DynamicImage::ImageRgba8(buffer).resize(edge, edge, filter).to_rgba8();
    let (width, height) = resized.dimensions();
    RgbaImage { width, height, pixels: resized.into_raw() }
}

/// A page as it is previewed: the whole of it, as large as a square of [`PREVIEW_EDGE`] pixels holds.
pub fn preview_of(image: &RgbaImage) -> (r: RgbaImage)
    requires
        image.wf(),
        image.width > 0,
        image.height > 0,
    ensures
        call_ensures(resize_image, (image, PREVIEW_EDGE), r),
        r.wf(),
        1 <= r.width <= PREVIEW_EDGE,
        1 <= r.height <= PREVIEW_EDGE,
        r.width == PREVIEW_EDGE || r.height == PREVIEW_EDGE,
{
    resize_image(image, PREVIEW_EDGE)
}

/// A quality from 1 to 100 stays; zero becomes 1, and what is above 100 becomes 100.
pub proof fn lemma_clamped(q: u8)
    ensures
        1 <= q <= 100 ==> clamped(q) == q,
        q == 0 ==> clamped(q) == 1,
        q > 100 ==> clamped(q) == 100,
{
}

/// A channel on white is the number nearest to the mixture: `alpha` parts of the channel and the rest
/// of 255 parts white.
pub proof fn lemma_on_white_is_nearest(value: u8, alpha: u8)
    ensures
        ({
            let mixture = value * alpha + 255 * (255 - alpha);
            -127 <= 255 * on_white(value, alpha) - mixture <= 127
        }),
{
    lemma_on_white(value, alpha);
    let mixture: int = value * alpha + 255 * (255 - alpha);
    let r: int = (mixture + 127) / 255;
    assert(r == on_white(value, alpha));
    assert(255 * r <= mixture + 127 < 255 * r + 255) by (nonlinear_arith)
        requires
            r == (mixture + 127) / 255,
    ;
}

/// Each pixel keeps its place and its three channels, each on white by the pixel's own opacity.
pub proof fn lemma_matted_pixels(pixels: Seq<u8>, count: nat, k: int, channel: int)
    requires
        pixels.len() == 4 * count,
        0 <= k < count,
        0 <= channel < 3,
    ensures
        matted(pixels).len() == 3 * count,
        matted(pixels)[3 * k + channel] == on_white(pixels[4 * k + channel], pixels[4 * k + 3]),
{
    let i = 3 * k + channel;
    assert(i / 3 == k && i % 3 == channel);
}

} // verus!
