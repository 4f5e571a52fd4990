//! The icons of the menu bar.

use raflow::error::RaflowError;
use raflow::icon::{decode_icon, dimmed, settle_icon, IconPixels};

/// A PNG of one red pixel.
fn red_pixel() -> Vec<u8> {
    vec![
        0x89, 0x50, 0x4e, 0x47, 0x0d, 0x0a, 0x1a, 0x0a, 0x00, 0x00, 0x00, 0x0d, 0x49, 0x48, 0x44,
        0x52, 0x00, 0x00, 0x00, 0x01, 0x00, 0x00, 0x00, 0x01, 0x08, 0x02, 0x00, 0x00, 0x00, 0x90,
        0x77, 0x53, 0xde, 0x00, 0x00, 0x00, 0x0c, 0x49, 0x44, 0x41, 0x54, 0x78, 0x9c, 0x63, 0xf8,
        0xcf, 0xc0, 0x00, 0x00, 0x03, 0x01, 0x01, 0x00, 0xc9, 0xfe, 0x92, 0xef, 0x00, 0x00, 0x00,
        0x00, 0x49, 0x45, 0x4e, 0x44, 0xae, 0x42, 0x60, 0x82,
    ]
}

#[test]
fn a_picture_is_decoded_to_its_pixels() {
    assert_eq!(
        decode_icon(&red_pixel(), "idle"),
        Ok(IconPixels {
            rgba: vec![255, 0, 0, 255],
            width: 1,
            height: 1
        })
    );
}

#[test]
fn what_is_no_picture_is_refused_by_name() {
    match decode_icon(b"not a picture", "recording") {
        Err(RaflowError::AudioCapture { detail }) => {
            assert!(detail.starts_with("failed to decode recording icon: "), "{detail}");
        }
        other => panic!("expected an error, got {other:?}"),
    }
    assert_eq!(
        settle_icon(Err("bad".to_string()), "idle"),
        Err(RaflowError::AudioCapture {
            detail: "failed to decode idle icon: bad".to_string()
        })
    );
}

#[test]
fn a_dimmed_picture_is_half_as_opaque() {
    let icon = IconPixels {
        rgba: vec![1, 2, 3, 255, 200, 100, 50, 7],
        width: 2,
        height: 1,
    };
    assert_eq!(
        dimmed(&icon),
        IconPixels {
            rgba: vec![1, 2, 3, 127, 200, 100, 50, 3],
            width: 2,
            height: 1
        }
    );
}
