use pnm::{PNMError, PNMImage};

/// Copies `v` into an array of exactly its length.
fn to_array<const N: usize>(v: Vec<u8>) -> [u8; N] {
    assert_eq!(v.len(), N);
    let mut a = [0u8; N];
    a.copy_from_slice(&v);
    a
}

/// A header followed by a payload.
fn with_payload(header: &str, payload: &[u8]) -> Vec<u8> {
    let mut v = header.as_bytes().to_vec();
    v.extend_from_slice(payload);
    v
}

const GIMP_HEADER: &str = "P6\n# Created by GIMP version 2.10.34 PNM plug-in\n64 64\n255\n";
const GIMP_LEN: usize = GIMP_HEADER.len() + 64 * 64 * 3;

/// A 64 by 64 image: a black border four pixels wide around a three by three
/// grid of colours (green, red, yellow / red, white, red / cyan, red, blue).
fn gimp_image() -> [u8; GIMP_LEN] {
    let grid = [
        [(0, 255, 0), (255, 0, 0), (255, 255, 0)],
        [(255, 0, 0), (255, 255, 255), (255, 0, 0)],
        [(0, 255, 255), (255, 0, 0), (0, 0, 255)],
    ];
    let band = |c: usize| if c < 24 { 0 } else if c < 40 { 1 } else { 2 };
    let mut payload = Vec::new();
    for y in 0..64usize {
        for x in 0..64usize {
            let (r, g, b) = if x < 4 || x >= 60 || y < 4 || y >= 60 {
                (0, 0, 0)
            } else {
                grid[band(y)][band(x)]
            };
            payload.push(r);
            payload.push(g);
            payload.push(b);
        }
    }
    to_array(with_payload(GIMP_HEADER, &payload))
}

#[test]
fn test() {
    let raw_img = gimp_image();
    let ppm_img = PNMImage::from_parse(&raw_img).unwrap();

    assert_eq!(ppm_img.comment(), "# Created by GIMP version 2.10.34 PNM plug-in");
    assert_eq!(ppm_img.width(), 64, "expecting image width 64");
    assert_eq!(ppm_img.height(), 64, "expecting image height 64");

    // overflows should be None
    assert_eq!(ppm_img.pixel_rgb(64, 63), None);

    // corners should be black
    assert_eq!(ppm_img.pixel_rgb(0, 0), Some((0, 0, 0)));
    assert_eq!(ppm_img.pixel_rgb(63, 63), Some((0, 0, 0)));
    assert_eq!(ppm_img.pixel_rgb(63, 0), Some((0, 0, 0)));
    assert_eq!(ppm_img.pixel_rgb(0, 63), Some((0, 0, 0)));

    // with an offset, they should be:
    // GREEN | RED | YELLOW
    // RED | WHITE | RED
    // CYAN | RED | BLUE
    assert_eq!(ppm_img.pixel_rgb(7, 7), Some((0, 255, 0)));
    assert_eq!(ppm_img.pixel_rgb(31, 7), Some((255, 0, 0)));
    assert_eq!(ppm_img.pixel_rgb(56, 7), Some((255, 255, 0)));

    assert_eq!(ppm_img.pixel_rgb(7, 31), Some((255, 0, 0)));
    assert_eq!(ppm_img.pixel_rgb(31, 31), Some((255, 255, 255)));
    assert_eq!(ppm_img.pixel_rgb(56, 31), Some((255, 0, 0)));

    assert_eq!(ppm_img.pixel_rgb(7, 56), Some((0, 255, 255)));
    assert_eq!(ppm_img.pixel_rgb(31, 56), Some((255, 0, 0)));
    assert_eq!(ppm_img.pixel_rgb(56, 56), Some((0, 0, 255)));
}

#[test]
fn gimp_image_maximum_pixel() {
    let raw_img = gimp_image();
    let ppm_img = PNMImage::from_parse(&raw_img).unwrap();
    assert_eq!(ppm_img.maximum_pixel(), 255);
}

#[test]
fn square_header_without_comment() {
    let bytes: [u8; 13 + 64 * 64 * 3] = to_array(with_payload("P6\n64 64\n255\n", &[7u8; 64 * 64 * 3]));
    let img = PNMImage::from_parse(&bytes).unwrap();
    assert_eq!(img.width(), 64);
    assert_eq!(img.height(), 64);
    assert_eq!(img.maximum_pixel(), 255);
    assert_eq!(img.comment(), "");
    assert_eq!(img.pixel_rgb(63, 63), Some((7, 7, 7)));
}

#[test]
fn two_pixel_scenario() {
    let bytes: [u8; 32] = to_array(with_payload("P6\n# Created by X\n2 1\n255\n", &[0, 0, 0, 255, 255, 255]));
    let img = PNMImage::from_parse(&bytes).unwrap();
    assert_eq!(img.width(), 2);
    assert_eq!(img.height(), 1);
    assert_eq!(img.maximum_pixel(), 255);
    assert_eq!(img.comment(), "# Created by X");
    assert_eq!(img.pixel_rgb(0, 0), Some((0, 0, 0)));
    assert_eq!(img.pixel_rgb(1, 0), Some((255, 255, 255)));
    assert_eq!(img.pixel_rgb(2, 0), None);
}

#[test]
fn every_pixel_inside_is_present() {
    let payload: Vec<u8> = (0..18u8).collect();
    let bytes: [u8; 29] = to_array(with_payload("P6\n3 2\n255\n", &payload));
    let img = PNMImage::from_parse(&bytes).unwrap();
    for y in 0..2usize {
        for x in 0..3usize {
            let i = ((x + y * 3) * 3) as u8;
            assert_eq!(img.pixel_rgb(x, y), Some((i, i + 1, i + 2)));
        }
        assert_eq!(img.pixel_rgb(3, y), None);
    }
    assert_eq!(img.pixel_rgb(0, 2), None);
    assert_eq!(img.pixel_rgb(usize::MAX, usize::MAX), None);
}

#[test]
fn short_payload_has_no_partial_pixel() {
    let bytes: [u8; 15] = to_array(with_payload("P6\n2 1\n255\n", &[1, 2, 3, 4]));
    let img = PNMImage::from_parse(&bytes).unwrap();
    assert_eq!(img.pixel_rgb(0, 0), Some((1, 2, 3)));
    assert_eq!(img.pixel_rgb(1, 0), None);
}

#[test]
fn single_comment_line() {
    let bytes: [u8; 21] = to_array(with_payload("P6\n#hello\n1 1\n255\n", &[9, 8, 7]));
    let img = PNMImage::from_parse(&bytes).unwrap();
    assert_eq!(img.comment(), "#hello");
    assert_eq!(img.pixel_rgb(0, 0), Some((9, 8, 7)));
}

#[test]
fn adjacent_comment_lines_form_one_comment() {
    let bytes: [u8; 21] = to_array(with_payload("P6\n#ab\n#cd\n1 1\n15\n", &[1, 2, 3]));
    let img = PNMImage::from_parse(&bytes).unwrap();
    assert_eq!(img.comment(), "#ab\n#cd");
    assert_eq!(img.maximum_pixel(), 15);
    assert_eq!(img.pixel_rgb(0, 0), Some((1, 2, 3)));
}

#[test]
fn comment_is_decoded_as_utf8() {
    let bytes: [u8; 14] = to_array(with_payload("P6\n#h\u{e9}\n1 1\n9\n", &[]));
    let img = PNMImage::from_parse(&bytes).unwrap();
    assert_eq!(img.comment(), "#h\u{e9}");
    assert_eq!(img.comment().chars().count(), 3);
}

#[test]
fn comment_not_utf8() {
    let mut v = b"P6\n#ab".to_vec();
    v.push(0xff);
    v.extend_from_slice(b"\n1 1\n255\n");
    let bytes: [u8; 16] = to_array(v);
    assert!(matches!(PNMImage::from_parse(&bytes), Err(PNMError::UTF8Error)));
}

#[test]
fn bad_digit_in_height() {
    let bytes: [u8; 14] = to_array(b"P6\n64 6a\n255\n\0".to_vec());
    match PNMImage::from_parse(&bytes) {
        Err(PNMError::ParseError { pos, got, ctx }) => {
            assert_eq!(pos, 7);
            assert_eq!(got, b'a');
            assert_eq!(ctx, "expected digit.");
        }
        other => panic!("unexpected result {:?}", other),
    }
}

#[test]
fn newline_in_width_is_not_a_digit() {
    let bytes: [u8; 12] = to_array(b"P6\n64\n64\n255".to_vec());
    match PNMImage::from_parse(&bytes) {
        Err(PNMError::ParseError { pos, got, ctx }) => {
            assert_eq!(pos, 5);
            assert_eq!(got, b'\n');
            assert_eq!(ctx, "expected digit.");
        }
        other => panic!("unexpected result {:?}", other),
    }
}

#[test]
fn not_pnm_first_byte() {
    let bytes: [u8; 3] = *b"Q6\n";
    assert!(matches!(PNMImage::from_parse(&bytes), Err(PNMError::NotPNMFormat)));
}

#[test]
fn not_pnm_variant_digit() {
    for d in [b'0', b'7', b'9', b'A', 0u8] {
        let bytes: [u8; 3] = [b'P', d, b'\n'];
        assert!(matches!(PNMImage::from_parse(&bytes), Err(PNMError::NotPNMFormat)));
    }
}

#[test]
fn unsupported_variants() {
    for d in b'1'..=b'5' {
        let bytes: [u8; 3] = [b'P', d, b'\n'];
        assert!(matches!(PNMImage::from_parse(&bytes), Err(PNMError::UnsupportedPNMFormat)));
    }
}

#[test]
fn missing_newline_after_magic() {
    let bytes: [u8; 4] = *b"P6 6";
    match PNMImage::from_parse(&bytes) {
        Err(PNMError::ParseError { pos, got, ctx }) => {
            assert_eq!(pos, 2);
            assert_eq!(got, b' ');
            assert_eq!(ctx, "expected newline.");
        }
        other => panic!("unexpected result {:?}", other),
    }
}

#[test]
fn empty_and_short_buffers() {
    let empty: [u8; 0] = [];
    assert!(matches!(PNMImage::from_parse(&empty), Err(PNMError::NotPNMFormat)));
    let one: [u8; 1] = *b"P";
    assert!(matches!(PNMImage::from_parse(&one), Err(PNMError::NotPNMFormat)));
    let two: [u8; 2] = *b"P6";
    match PNMImage::from_parse(&two) {
        Err(PNMError::ParseError { pos, got, ctx }) => {
            assert_eq!(pos, 2);
            assert_eq!(got, 0);
            assert_eq!(ctx, "unexpected end of input.");
        }
        other => panic!("unexpected result {:?}", other),
    }
}

#[test]
fn unterminated_comment() {
    let bytes: [u8; 8] = *b"P6\n#abcd";
    match PNMImage::from_parse(&bytes) {
        Err(PNMError::ParseError { pos, ctx, .. }) => {
            assert_eq!(pos, 8);
            assert_eq!(ctx, "unexpected end of input.");
        }
        other => panic!("unexpected result {:?}", other),
    }
}

#[test]
fn truncated_field() {
    let bytes: [u8; 10] = *b"P6\n64 64\n2";
    match PNMImage::from_parse(&bytes) {
        Err(PNMError::ParseError { pos, got, ctx }) => {
            assert_eq!(pos, 10);
            assert_eq!(got, 0);
            assert_eq!(ctx, "unexpected end of input.");
        }
        other => panic!("unexpected result {:?}", other),
    }
}

#[test]
fn oversized_width() {
    let bytes: [u8; 34] = to_array(b"P6\n184467440737095516160000 1\n255\n".to_vec());
    match PNMImage::from_parse(&bytes) {
        Err(PNMError::ParseError { pos, got, ctx }) => {
            assert_eq!(pos, 3);
            assert_eq!(got, b'1');
            assert_eq!(ctx, "number too large.");
        }
        other => panic!("unexpected result {:?}", other),
    }
}

#[test]
fn empty_fields_read_as_zero() {
    let bytes: [u8; 6] = *b"P6\n \n\n";
    let img = PNMImage::from_parse(&bytes).unwrap();
    assert_eq!(img.width(), 0);
    assert_eq!(img.height(), 0);
    assert_eq!(img.maximum_pixel(), 0);
    assert_eq!(img.pixel_rgb(0, 0), None);
}
