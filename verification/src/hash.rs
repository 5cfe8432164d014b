//! Perceptual hashes of images and the hamming distance between them.
use vstd::prelude::*;
use crate::gif::{gif_frame_fits, gif_frame_fits_exec};

verus! {

/// Number of the lowest `k` bits in which `a` and `b` differ.
pub open spec fn differing_bits(a: nat, b: nat, k: nat) -> nat
    decreases k,
{
    if k == 0 {
        0
    } else {
        (if a % 2 != b % 2 {
            1nat
        } else {
            0nat
        }) + differing_bits(a / 2, b / 2, (k - 1) as nat)
    }
}

/// Number of bits in which two bytes differ.
pub open spec fn byte_distance(a: u8, b: u8) -> nat {
    differing_bits(a as nat, b as nat, 8)
}

/// Hamming distance between two hashes: the bits that differ, counted over the
/// bytes that both hashes have.
pub open spec fn hash_distance(a: Seq<u8>, b: Seq<u8>) -> nat
    decreases a.len(),
{
    if a.len() == 0 || b.len() == 0 {
        0
    } else {
        byte_distance(a[0], b[0]) + hash_distance(a.drop_first(), b.drop_first())
    }
}

proof fn lemma_differing_bits_bound(a: nat, b: nat, k: nat)
    ensures
        differing_bits(a, b, k) <= k,
        differing_bits(a, b, k) == differing_bits(b, a, k),
        differing_bits(a, a, k) == 0,
    decreases k,
{
    if k > 0 {
        lemma_differing_bits_bound(a / 2, b / 2, (k - 1) as nat);
        lemma_differing_bits_bound(b / 2, a / 2, (k - 1) as nat);
        lemma_differing_bits_bound(a / 2, a / 2, (k - 1) as nat);
    }
}

/// Law: the distance is symmetric, a hash is at distance 0 from itself, and
/// at most 8 bits per common byte differ.
pub proof fn lemma_hash_distance_properties(a: Seq<u8>, b: Seq<u8>)
    ensures
        hash_distance(a, b) == hash_distance(b, a),
        hash_distance(a, a) == 0,
        hash_distance(a, b) <= 8 * a.len(),
        hash_distance(a, b) <= 8 * b.len(),
    decreases a.len(),
{
    if a.len() > 0 && b.len() > 0 {
        lemma_hash_distance_properties(a.drop_first(), b.drop_first());
        lemma_differing_bits_bound(a[0] as nat, b[0] as nat, 8);
    }
    if a.len() > 0 {
        lemma_hash_distance_properties(a.drop_first(), a.drop_first());
        lemma_differing_bits_bound(a[0] as nat, a[0] as nat, 8);
    }
}

/// Two to the power `k`.
pub open spec fn two_to(k: nat) -> nat
    decreases k,
{
    if k == 0 {
        1
    } else {
        2 * two_to((k - 1) as nat)
    }
}

proof fn lemma_no_differing_bits(a: nat, b: nat, k: nat)
    requires
        differing_bits(a, b, k) == 0,
        a < two_to(k),
        b < two_to(k),
    ensures
        a == b,
    decreases k,
{
    if k > 0 {
        lemma_no_differing_bits(a / 2, b / 2, (k - 1) as nat);
    }
}

/// Law: hashes of the same length at distance 0 are equal, so a threshold of
/// 0 matches exactly the files whose hashes are identical.
pub proof fn lemma_zero_distance_means_equal(a: Seq<u8>, b: Seq<u8>)
    requires
        a.len() == b.len(),
        hash_distance(a, b) == 0,
    ensures
        a == b,
    decreases a.len(),
{
    if a.len() > 0 {
        assert(two_to(8) == 256) by {
            reveal_with_fuel(two_to, 9);
        }
        lemma_no_differing_bits(a[0] as nat, b[0] as nat, 8);
        lemma_zero_distance_means_equal(a.drop_first(), b.drop_first());
        assert(a =~= seq![a[0]] + a.drop_first());
        assert(b =~= seq![b[0]] + b.drop_first());
    } else {
        assert(a =~= b);
    }
}

fn byte_distance_exec(a: u8, b: u8) -> (d: u32)
    ensures
        d == byte_distance(a, b),
        d <= 8,
{
    let mut x: u8 = a;
    let mut y: u8 = b;
    let mut d: u32 = 0;
    let mut k: u32 = 8;
    proof {
        lemma_differing_bits_bound(a as nat, b as nat, 8);
    }
    while k > 0
        invariant
            k <= 8,
            d + differing_bits(x as nat, y as nat, k as nat) == byte_distance(a, b),
            d <= 8 - k,
        decreases k,
    {
        proof {
            lemma_differing_bits_bound((x / 2) as nat, (y / 2) as nat, (k - 1) as nat);
        }
        if x % 2 != y % 2 {
            d = d + 1;
        }
        x = x / 2;
        y = y / 2;
        k = k - 1;
    }
    d
}

/// `hash_distance` as a `u32`, which is the distance itself whenever it fits.
pub open spec fn capped_distance(a: Seq<u8>, b: Seq<u8>) -> nat {
    if hash_distance(a, b) <= u32::MAX {
        hash_distance(a, b)
    } else {
        u32::MAX as nat
    }
}

/// Hamming distance between two perceptual hashes, over the bytes they both
/// have; a distance beyond `u32::MAX` (hashes of more than 500 MiB) gives `u32::MAX`.
pub fn hash_distance_exec(a: &Vec<u8>, b: &Vec<u8>) -> (d: u32)
    ensures
        d == capped_distance(a@, b@),
{
    let n = if a.len() < b.len() { a.len() } else { b.len() };
    let mut d: u32 = 0;
    let mut i: usize = 0;
    proof {
        lemma_hash_distance_properties(a@, b@);
        assert(a@.skip(0) =~= a@);
        assert(b@.skip(0) =~= b@);
    }
    while i < n
        invariant
            n <= a.len(),
            n <= b.len(),
            n == a.len() || n == b.len(),
            i <= n,
            d + hash_distance(a@.skip(i as int), b@.skip(i as int)) == hash_distance(a@, b@),
        decreases n - i,
    {
        let ghost sa = a@.skip(i as int);
        let ghost sb = b@.skip(i as int);
        assert(sa.drop_first() =~= a@.skip(i + 1));
        assert(sb.drop_first() =~= b@.skip(i + 1));
        let e = byte_distance_exec(a[i], b[i]);
        if d > u32::MAX - e {
            return u32::MAX;
        }
        d = d + e;
        i = i + 1;
    }
    proof {
        assert(a@.skip(n as int).len() == 0 || b@.skip(n as int).len() == 0);
    }
    d
}

/// The extension names the GIF format, as `image::ImageFormat::from_extension`
/// reads it: `gif` in any ASCII case.
pub open spec fn names_gif(extension: Seq<char>) -> bool {
    &&& extension.len() == 3
    &&& (extension[0] == 'g' || extension[0] == 'G')
    &&& (extension[1] == 'i' || extension[1] == 'I')
    &&& (extension[2] == 'f' || extension[2] == 'F')
}

fn names_gif_exec(extension: &str) -> (r: bool)
    ensures
        r == names_gif(extension@),
{
    if extension.unicode_len() != 3 {
        return false;
    }
    let a = extension.get_char(0);
    let b = extension.get_char(1);
    let c = extension.get_char(2);
    (a == 'g' || a == 'G') && (b == 'i' || b == 'I') && (c == 'f' || c == 'F')
}

#[verifier::external_type_specification]
#[verifier::external_body]
pub struct ExDynamicImage(image::DynamicImage);

/// An image that the `image` crate decoded, with the width and height that
/// it reports for it.
struct DecodedImage {
    image: image::DynamicImage,
    width: u32,
    height: u32,
}

/// The width and height of the image that the `image` crate decodes from
/// `encoded` with the decoder that `extension` names; `None` when it cannot
/// decode it.
pub uninterp spec fn decoded_size(encoded: Seq<u8>, extension: Seq<char>) -> Option<(u32, u32)>;

/// The decoded image has at least one pixel.
pub open spec fn has_pixels(size: Option<(u32, u32)>) -> bool {
    match size {
        Some((w, h)) => w > 0 && h > 0,
        None => false,
    }
}

/// Calls `image::ImageFormat::from_extension` to pick the decoder, as
/// `image::open` does for a path, then `image::load_from_memory_with_format`,
/// and reads the dimensions of the result with `GenericImageView::dimensions`.
/// Claimed: the call succeeds exactly when `decoded_size` is some size, and
/// the dimensions are that size. An error is the `image` crate's message.
/// The GIF decoder of `image` 0.23 slices past its buffer when the first frame
/// lies at the top left corner and holds more pixels than the logical screen
/// (`GifDecoder::read_image` reads such a frame straight into the screen-sized
/// buffer), so such files are left out. The other decoders are taken to
/// report malformed input as an error; that none of them panics on some
/// malformed input is not shown by anything here.
#[verifier::external_body]
fn decode_image(encoded: &[u8], extension: &str) -> (r: Result<DecodedImage, String>)
    requires
        names_gif(extension@) ==> gif_frame_fits(encoded@),
    ensures
        r is Ok <==> decoded_size(encoded@, extension@) is Some,
        r matches Ok(d) ==> decoded_size(encoded@, extension@) == Some((d.width, d.height)),
{
    let hint = image::error::ImageFormatHint::PathExtension(extension.into());
    let format = image::ImageFormat::from_extension(extension)
        .ok_or_else(|| image::ImageError::Unsupported(hint.into()).to_string())?;
    let image = image::load_from_memory_with_format(encoded, format).map_err(|e| e.to_string())?;
    let (width, height) = image::GenericImageView::dimensions(&image);
    Ok(DecodedImage { image, width, height })
}

/// Calls `img_hash::Hasher::hash_image` (a hasher built by `HasherConfig` with
/// `HashAlg::DoubleGradient` and hash size 8x8) and `ImageHash::as_bytes`.
/// The image must have pixels: resizing an empty image reads past it. The
/// hash has 40 bits, 5 bytes: the image is resized to 5x5 and each row and
/// each column gives 4 gradient bits. Nothing more is claimed of the hash: the
/// resize computes with `f32::sin`, whose last bit may differ from one machine
/// to another.
#[verifier::external_body]
fn hash_decoded(decoded: &DecodedImage) -> (h: Vec<u8>)
    requires
        decoded.width > 0,
        decoded.height > 0,
    ensures
        h@.len() == 5,
{
    let hasher = img_hash::HasherConfig::new()
        .hash_alg(img_hash::HashAlg::DoubleGradient)
        .hash_size(8, 8)
        .to_hasher();
    hasher.hash_image(&decoded.image).as_bytes().to_vec()
}

/// The message for a file that cannot be hashed.
pub open spec fn open_failure(path: Seq<char>, reason: Seq<char>) -> Seq<char> {
    "failed to open "@ + path + ": "@ + reason
}

fn open_failure_text(path: &str, reason: &str) -> (t: String)
    ensures
        t@ == open_failure(path@, reason@),
{
    let mut t = String::from_str("failed to open ");
    t.append(path);
    t.append(": ");
    t.append(reason);
    t
}

/// Hashes the image file at `path`, whose content is `encoded` and whose
/// extension is `extension`; the extension picks the decoder. A file that
/// cannot be hashed is reported as `failed to open <path>: <reason>`: a GIF
/// whose first frame overflows its logical screen, an image without pixels,
/// or whatever the decoder refuses. Every other image is hashed.
pub fn hash_image_bytes(path: &str, encoded: &[u8], extension: &str) -> (r: Result<Vec<u8>, String>)
    ensures
        r is Ok <==> !(names_gif(extension@) && !gif_frame_fits(encoded@)) && has_pixels(
            decoded_size(encoded@, extension@),
        ),
        r matches Ok(h) ==> h@.len() == 5,
        !(names_gif(extension@) && !gif_frame_fits(encoded@)) && decoded_size(encoded@, extension@) is Some
            && !has_pixels(decoded_size(encoded@, extension@)) ==> (r matches Err(e) && e@ == open_failure(
            path@,
            "the image has no pixels"@,
        )),
        r matches Err(e) ==> exists|reason: Seq<char>| e@ == open_failure(path@, reason),
        names_gif(extension@) && !gif_frame_fits(encoded@) ==> (r matches Err(e) && e@ == open_failure(
            path@,
            "the first frame is larger than the logical screen"@,
        )),
{
    if names_gif_exec(extension) && !gif_frame_fits_exec(encoded) {
        return Err(open_failure_text(path, "the first frame is larger than the logical screen"));
    }
    match decode_image(encoded, extension) {
        Err(reason) => Err(open_failure_text(path, reason.as_str())),
        Ok(decoded) => {
            if decoded.width == 0 || decoded.height == 0 {
                Err(open_failure_text(path, "the image has no pixels"))
            } else {
                Ok(hash_decoded(&decoded))
            }
        },
    }
}

} // verus!
