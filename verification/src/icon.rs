//! The icons of the menu bar.

use vstd::prelude::*;
use crate::error::RaflowError;

verus! {

/// A picture: four bytes for each pixel, row by row.
#[derive(Debug, PartialEq, Eq)]
pub struct IconPixels {
    pub rgba: Vec<u8>,
    pub width: u32,
    pub height: u32,
}

/// There are four bytes for each pixel, at least.
pub open spec fn holds_pixels(icon: IconPixels) -> bool {
    icon.rgba@.len() >= 4 * (icon.width * icon.height)
}

/// Decoding `bytes` can come out as `decoded`.
pub uninterp spec fn may_decode(bytes: Seq<u8>, decoded: Result<IconPixels, String>) -> bool;

/// `image::load_from_memory` guesses the format of an encoded picture and decodes it, and
/// `DynamicImage::to_rgba8` turns what comes out into four bytes a pixel; the error is handed on as
/// its text. What comes out is one of the outcomes that these bytes can have, and a picture holds
/// the bytes of all its pixels: the crate makes no picture whose buffer is too small for its size.
/// That the bytes have only one outcome is not claimed: which formats are known depends on the
/// decoders that were registered with the crate while the program runs.
#[verifier::external_body]
fn load_rgba(bytes: &[u8]) -> (decoded: Result<IconPixels, String>)
    ensures
        may_decode(bytes@, decoded),
        decoded matches Ok(icon) ==> holds_pixels(icon),
{
    match image::load_from_memory(bytes) {
        Ok(picture) => {
            let rgba = picture.to_rgba8();
            let (width, height) = rgba.dimensions();
            Ok(IconPixels { rgba: rgba.into_raw(), width, height })
        },
        Err(e) => Err(e.to_string()),
    }
}

/// The icon that was decoded, or an error that names it and says why it could not be.
pub open spec fn icon_is(
    r: Result<IconPixels, RaflowError>,
    decoded: Result<IconPixels, String>,
    label: Seq<char>,
) -> bool {
    match decoded {
        Ok(pixels) => r == Ok::<IconPixels, RaflowError>(pixels),
        Err(reason) => r matches Err(RaflowError::AudioCapture { detail }) && detail@
            == "failed to decode "@ + label + " icon: "@ + reason@,
    }
}

/// The icon that was decoded, or an error that names it and says why it could not be.
pub fn settle_icon(decoded: Result<IconPixels, String>, label: &str) -> (r: Result<
    IconPixels,
    RaflowError,
>)
    ensures
        icon_is(r, decoded, label@),
{
    match decoded {
        Ok(pixels) => Ok(pixels),
        Err(reason) => {
            let mut detail = "failed to decode ".to_owned();
            detail.append(label);
            detail.append(" icon: ");
            detail.append(reason.as_str());
            Err(RaflowError::AudioCapture { detail })
        },
    }
}

/// Decodes the icon that `label` names: what decoding `bytes` comes out as is settled.
pub fn decode_icon(bytes: &[u8], label: &str) -> (r: Result<IconPixels, RaflowError>)
    ensures
        exists|decoded: Result<IconPixels, String>|
            may_decode(bytes@, decoded) && #[trigger] icon_is(r, decoded, label@),
        r matches Ok(icon) ==> holds_pixels(icon),
{
    let decoded = load_rgba(bytes);
    let ghost d = decoded;
    let r = settle_icon(decoded, label);
    assert(icon_is(r, d, label@));
    r
}

/// Every pixel is half as opaque, and otherwise as it was.
pub open spec fn half_as_opaque(before: Seq<u8>, after: Seq<u8>) -> bool {
    &&& after.len() == before.len()
    &&& forall|i: int|
        0 <= i < before.len() ==> #[trigger] after[i] == if i % 4 == 3 {
            before[i] / 2
        } else {
            before[i]
        }
}

/// The picture, dimmed.
pub fn dimmed(icon: &IconPixels) -> (dim: IconPixels)
    ensures
        half_as_opaque(icon.rgba@, dim.rgba@),
        dim.width == icon.width,
        dim.height == icon.height,
{
    let mut rgba: Vec<u8> = Vec::new();
    let mut i: usize = 0;
    while i < icon.rgba.len()
        invariant
            i <= icon.rgba@.len(),
            half_as_opaque(icon.rgba@.take(i as int), rgba@),
        decreases icon.rgba@.len() - i,
    {
        let byte: u8 = icon.rgba[i];
        rgba.push(
            if i % 4 == 3 {
                byte / 2
            } else {
                byte
            },
        );
        i += 1;
    }
    assert(icon.rgba@.take(i as int) == icon.rgba@);
    IconPixels { rgba, width: icon.width, height: icon.height }
}

} // verus!
