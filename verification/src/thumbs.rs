//! Card pictures: which bytes look like an image, where fetched pictures are kept,
//! and turning bytes into pixels.
use vstd::prelude::*;

use crate::hash::{hex_of, sha256_of, short};
use crate::paths::{join, join_str};

verus! {

/// How many pictures are fetched at once.
pub const MAX_IN_FLIGHT: usize = 8;

/// How wide a picture is kept; wider ones are scaled down.
pub const MAX_EDGE: u32 = 640;

/// Whether a failed fetch is worth trying again.
#[derive(Debug, Clone, Copy, PartialEq, Eq, Structural)]
pub enum Retry {
    Worth,
    Pointless,
}

/// A picture that could not be had, and why.
#[derive(Debug, Clone)]
pub struct Failed {
    pub url: String,
    pub reason: String,
    pub retry: Retry,
}

impl Failed {
    /// The network failed: worth trying again.
    pub fn network(url: String, reason: String) -> (f: Failed)
        ensures
            f.url == url,
            f.reason == reason,
            f.retry == Retry::Worth,
    {
        Failed { url, reason, retry: Retry::Worth }
    }

    /// What came back will never be a picture.
    pub fn hopeless(url: String, reason: &str) -> (f: Failed)
        ensures
            f.url == url,
            f.reason@ == reason@,
            f.retry == Retry::Pointless,
    {
        Failed { url, reason: reason.to_string(), retry: Retry::Pointless }
    }
}

/// A picture decoded to pixels.
#[derive(Debug, Clone)]
pub struct Ready {
    pub url: String,
    pub width: u32,
    pub height: u32,
    pub pixels: Vec<u8>,
}

pub open spec fn starts_with_bytes(b: Seq<u8>, p: Seq<u8>) -> bool {
    p.len() <= b.len() && b.take(p.len() as int) == p
}

/// Whether `bytes` begin like a JPEG, PNG, GIF, BMP or WebP file and are long
/// enough to hold the longest of those headers: a truncated or foreign file
/// is not worth handing to the decoder.
pub open spec fn looks_decodable_spec(bytes: Seq<u8>) -> bool {
    &&& bytes.len() >= 12
    &&& {
        ||| starts_with_bytes(bytes, seq![0xFFu8, 0xD8u8, 0xFFu8])
        ||| starts_with_bytes(bytes, seq![0x89u8, 0x50u8, 0x4Eu8, 0x47u8])
        ||| starts_with_bytes(bytes, seq![0x47u8, 0x49u8, 0x46u8, 0x38u8])
        ||| starts_with_bytes(bytes, seq![0x42u8, 0x4Du8])
        ||| (starts_with_bytes(bytes, seq![0x52u8, 0x49u8, 0x46u8, 0x46u8]) && bytes.subrange(8, 12) == seq![0x57u8, 0x45u8, 0x42u8, 0x50u8])
    }
}

fn begins(bytes: &[u8], at: usize, p: &[u8]) -> (b: bool)
    requires
        at + p@.len() <= bytes@.len(),
    ensures
        b == (bytes@.subrange(at as int, at + p@.len()) == p@),
{
    let mut i: usize = 0;
    while i < p.len()
        invariant
            i <= p@.len(),
            at + p@.len() <= bytes@.len(),
            bytes@.len() == bytes.len(),
            forall|j: int| 0 <= j < i ==> bytes@[at + j] == p@[j],
        decreases p.len() - i,
    {
        if bytes[at + i] != p[i] {
            assert(bytes@.subrange(at as int, at + p@.len())[i as int] != p@[i as int]);
            return false;
        }
        i += 1;
    }
    assert(bytes@.subrange(at as int, at + p@.len()) =~= p@);
    true
}

/// Whether `bytes` look like a picture the decoder can read.
pub fn looks_decodable(bytes: &[u8]) -> (b: bool)
    ensures
        b == looks_decodable_spec(bytes@),
{
    if bytes.len() < 12 {
        return false;
    }
    let jpeg: [u8; 3] = [0xFF, 0xD8, 0xFF];
    let png: [u8; 4] = [0x89, 0x50, 0x4E, 0x47];
    let gif: [u8; 4] = [0x47, 0x49, 0x46, 0x38];
    let bmp: [u8; 2] = [0x42, 0x4D];
    let riff: [u8; 4] = [0x52, 0x49, 0x46, 0x46];
    let webp: [u8; 4] = [0x57, 0x45, 0x42, 0x50];
    assert(jpeg@ =~= seq![0xFFu8, 0xD8u8, 0xFFu8]);
    assert(png@ =~= seq![0x89u8, 0x50u8, 0x4Eu8, 0x47u8]);
    assert(gif@ =~= seq![0x47u8, 0x49u8, 0x46u8, 0x38u8]);
    assert(bmp@ =~= seq![0x42u8, 0x4Du8]);
    assert(riff@ =~= seq![0x52u8, 0x49u8, 0x46u8, 0x46u8]);
    assert(webp@ =~= seq![0x57u8, 0x45u8, 0x42u8, 0x50u8]);
    assert(bytes@.subrange(0, 3) =~= bytes@.take(3));
    assert(bytes@.subrange(0, 4) =~= bytes@.take(4));
    assert(bytes@.subrange(0, 2) =~= bytes@.take(2));
    if begins(bytes, 0, &jpeg) || begins(bytes, 0, &png) || begins(bytes, 0, &gif) || begins(bytes, 0, &bmp) {
        return true;
    }
    begins(bytes, 0, &riff) && begins(bytes, 8, &webp)
}

/// The name a fetched picture is kept under: a digest of its address.
pub open spec fn key_spec(url: Seq<char>) -> Seq<char> {
    hex_of(sha256_of(vstd::utf8::encode_utf8(url))).take(32)
}

/// The name a fetched picture is kept under.
pub fn key(url: &str) -> (k: String)
    ensures
        k@ == key_spec(url@),
{
    short(url.as_bytes(), 16)
}

/// Where the picture at `url` is kept inside `dir`.
pub fn cached_path(dir: &str, url: &str) -> (p: String)
    ensures
        p@ == join(dir@, key_spec(url@)),
{
    let k = key(url);
    join_str(dir, k.as_str())
}

/// Where fetched pictures are kept: `RLDeck/thumbs` in the user's cache folder,
/// or in the temporary folder where there is none.
pub fn cache_dir_from(cache: Option<String>, temp: String) -> (p: String)
    ensures
        p@ == join(join(match cache {
            Some(c) => c@,
            None => temp@,
        }, "RLDeck"@), "thumbs"@),
{
    let base = match cache {
        Some(c) => c,
        None => temp,
    };
    let rl = join_str(base.as_str(), "RLDeck");
    join_str(rl.as_str(), "thumbs")
}

/// A decoded picture, as the `image` crate holds it.
#[verifier::external_type_specification]
#[verifier::external_body]
pub struct ExDynamicImage(image::DynamicImage);

/// How a picture was made: the bytes it was read from, and the bounds it was
/// then scaled down to fit, if it was.
pub type Making = (Seq<u8>, Option<(u32, u32)>);

/// A picture the `image` crate decoded, with how it was made.
pub struct Picture {
    img: image::DynamicImage,
    made: Ghost<Making>,
}

impl View for Picture {
    type V = Making;

    closed spec fn view(&self) -> Making {
        self.made@
    }
}

/// Whether `image::load_from_memory` reads `bytes` as a picture: it guesses the
/// format from the bytes and decodes them, so the answer depends on the bytes
/// alone.
pub uninterp spec fn image_reads(bytes: Seq<u8>) -> bool;

/// What `DynamicImage::width` gives for the picture made as `made`.
pub uninterp spec fn picture_width(made: Making) -> u32;

/// What `DynamicImage::to_rgba8` gives for the picture made as `made`: its
/// width, its height and its RGBA bytes.
pub uninterp spec fn picture_rgba(made: Making) -> (u32, u32, Seq<u8>);

/// What `DynamicImage::write_to` gives when the picture made as `made` is
/// encoded as a JPEG in memory: the bytes, or none when encoding fails.
pub uninterp spec fn picture_jpeg(made: Making) -> Option<Seq<u8>>;

/// `image::load_from_memory`: the picture `bytes` hold, if the crate can read it.
/// Whether it reads them is the name `image_reads`; the picture is the one read
/// from these bytes.
#[verifier::external_body]
fn load_image(bytes: &[u8]) -> (r: Option<Picture>)
    ensures
        r is Some <==> image_reads(bytes@),
        r matches Some(p) ==> p@ == (bytes@, None::<(u32, u32)>),
{
    match image::load_from_memory(bytes) {
        Ok(img) => Some(Picture { img, made: Ghost((bytes@, None)) }),
        Err(_) => None,
    }
}

/// `DynamicImage::width`: the picture's width, the name `picture_width`.
#[verifier::external_body]
fn width_of(p: &Picture) -> (r: u32)
    ensures
        r == picture_width(p@),
{
    p.img.width()
}

/// `DynamicImage::thumbnail`: the picture scaled down to the largest size that
/// fits within `width` by `height`, keeping its proportions. The crate's
/// documentation promises the fit, so a width bound of one or more is kept.
#[verifier::external_body]
fn thumbnail(p: &Picture, width: u32, height: u32) -> (r: Picture)
    requires
        p@.1 is None,
    ensures
        r@ == (p@.0, Some((width, height))),
        width >= 1 ==> picture_width(r@) <= width,
{
    Picture { img: p.img.thumbnail(width, height), made: Ghost((p@.0, Some((width, height)))) }
}

/// `DynamicImage::to_rgba8`, with the buffer's width, height and bytes: the name
/// `picture_rgba`. The copy keeps the picture's width, and an RGBA buffer holds
/// four bytes for each pixel.
#[verifier::external_body]
fn rgba_of(p: &Picture) -> (r: (u32, u32, Vec<u8>))
    ensures
        (r.0, r.1, r.2@) == picture_rgba(p@),
        r.0 == picture_width(p@),
        r.2@.len() == r.0 * r.1 * 4,
{
    let rgba = p.img.to_rgba8();
    (rgba.width(), rgba.height(), rgba.into_raw())
}

/// `DynamicImage::write_to` a JPEG in memory: the encoded bytes, if encoding
/// worked; the name `picture_jpeg`.
#[verifier::external_body]
fn encode_jpeg(p: &Picture) -> (r: Option<Vec<u8>>)
    ensures
        bytes_of(r) == picture_jpeg(p@),
{
    let mut out = std::io::Cursor::new(Vec::new());
    match p.img.write_to(&mut out, image::ImageFormat::Jpeg) {
        Ok(()) => Some(out.into_inner()),
        Err(_) => None,
    }
}

/// The bytes `o` holds, if any.
pub open spec fn bytes_of(o: Option<Vec<u8>>) -> Option<Seq<u8>> {
    match o {
        Some(v) => Some(v@),
        None => None,
    }
}

/// The width of the picture read from `bytes`.
pub open spec fn read_width(bytes: Seq<u8>) -> u32 {
    picture_width((bytes, None))
}

/// The picture read from `bytes` scaled down to fit `MAX_EDGE` by twice that.
pub open spec fn scaled(bytes: Seq<u8>) -> Making {
    (bytes, Some((MAX_EDGE, (MAX_EDGE * 2) as u32)))
}

/// How the picture kept of `bytes` is made: scaled down when it is wider than
/// `MAX_EDGE`, as read otherwise.
pub open spec fn fitted(bytes: Seq<u8>) -> Making {
    if read_width(bytes) > MAX_EDGE {
        scaled(bytes)
    } else {
        (bytes, None)
    }
}

/// The pixels kept of the picture in `bytes`.
pub open spec fn pixels_of(bytes: Seq<u8>) -> (u32, u32, Seq<u8>) {
    picture_rgba(fitted(bytes))
}

/// The smaller JPEG made of the picture in `bytes`: none unless the crate reads
/// it, it is wider than `MAX_EDGE` and the scaled picture encodes.
pub open spec fn shrunk(bytes: Seq<u8>) -> Option<Seq<u8>> {
    if image_reads(bytes) && read_width(bytes) > MAX_EDGE {
        picture_jpeg(scaled(bytes))
    } else {
        None
    }
}

/// The pixels of the picture in `bytes`, scaled down when it is wider than
/// `MAX_EDGE`: width, height and four bytes for each pixel; there are pixels
/// exactly when the `image` crate reads the bytes. The width is at most
/// `MAX_EDGE`, and a picture narrow enough already keeps its width.
pub fn decode_rgba(bytes: &[u8]) -> (r: Option<(u32, u32, Vec<u8>)>)
    ensures
        r is Some <==> image_reads(bytes@),
        r matches Some((w, h, pixels)) ==> {
            &&& (w, h, pixels@) == pixels_of(bytes@)
            &&& pixels@.len() == w * h * 4
            &&& w <= MAX_EDGE
            &&& read_width(bytes@) <= MAX_EDGE ==> w == read_width(bytes@)
        },
{
    let decoded = match load_image(bytes) {
        Some(d) => d,
        None => return None,
    };
    if width_of(&decoded) > MAX_EDGE {
        let small = thumbnail(&decoded, MAX_EDGE, MAX_EDGE * 2);
        Some(rgba_of(&small))
    } else {
        Some(rgba_of(&decoded))
    }
}

/// A smaller JPEG of the picture in `bytes` when it is wider than `MAX_EDGE`;
/// none when it is narrow enough already or cannot be read.
pub fn shrink(bytes: &[u8]) -> (r: Option<Vec<u8>>)
    ensures
        bytes_of(r) == shrunk(bytes@),
{
    let decoded = match load_image(bytes) {
        Some(d) => d,
        None => return None,
    };
    if width_of(&decoded) <= MAX_EDGE {
        return None;
    }
    let small = thumbnail(&decoded, MAX_EDGE, MAX_EDGE * 2);
    encode_jpeg(&small)
}

/// The picture at `url` from `bytes`, or why there is none: it is ready exactly
/// when the `image` crate reads the bytes, with the pixels `decode_rgba` gives.
pub fn ready(url: String, bytes: &[u8]) -> (r: Result<Ready, Failed>)
    ensures
        r is Ok <==> image_reads(bytes@),
        match r {
            Ok(ready) => ready.url == url && (ready.width, ready.height, ready.pixels@) == pixels_of(bytes@)
                && ready.pixels@.len() == ready.width * ready.height * 4 && ready.width <= MAX_EDGE,
            Err(f) => f.url == url && f.reason@ == "could not decode"@ && f.retry == Retry::Pointless,
        },
{
    match decode_rgba(bytes) {
        Some((width, height, pixels)) => Ok(Ready { url, width, height, pixels }),
        None => Err(Failed::hopeless(url, "could not decode")),
    }
}

/// What to keep of a download: the bytes, shrunk when that gives something that
/// still looks like a picture; or why the download is no picture.
pub fn settle_download(url: String, fetched: Result<Vec<u8>, String>) -> (r: Result<Vec<u8>, Failed>)
    ensures
        match fetched {
            Err(reason) => r matches Err(f) && f.url == url && f.reason == reason && f.retry == Retry::Worth,
            Ok(bytes) => if looks_decodable_spec(bytes@) {
                r matches Ok(kept) && looks_decodable_spec(kept@) && kept@ == match shrunk(bytes@) {
                    Some(small) => if looks_decodable_spec(small) {
                        small
                    } else {
                        bytes@
                    },
                    None => bytes@,
                }
            } else {
                r matches Err(f) && f.url == url && f.reason@ == "not an image"@ && f.retry == Retry::Pointless
            },
        },
{
    let bytes = match fetched {
        Ok(b) => b,
        Err(reason) => return Err(Failed::network(url, reason)),
    };
    if !looks_decodable(&bytes) {
        return Err(Failed::hopeless(url, "not an image"));
    }
    match shrink(&bytes) {
        Some(small) => if looks_decodable(&small) {
            Ok(small)
        } else {
            Ok(bytes)
        },
        None => Ok(bytes),
    }
}

} // verus!
