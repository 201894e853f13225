use pdf_render::error::Error;
use pdf_render::jpeg::{encode_page_jpeg, encoded_page};
use pdf_render::render_worker::JpegEncoderType;

#[test]
fn encodes_rgb_pixels_as_jpeg() {
    let rgb: Vec<u8> = (0..2 * 3 * 3).map(|i| (i * 20) as u8).collect();
    let bytes = encode_page_jpeg(JpegEncoderType::Image, &rgb, 2, 3, 90).unwrap();
    assert_ne!(bytes, rgb);
    assert_eq!(&bytes[..2], &[0xFF, 0xD8]);
    assert_eq!(&bytes[bytes.len() - 2..], &[0xFF, 0xD9]);
    let again = encode_page_jpeg(JpegEncoderType::Image, &rgb, 2, 3, 90).unwrap();
    assert_eq!(bytes, again);
}

#[test]
fn encoding_refuses_bad_sizes() {
    let rgb = vec![0u8; 5];
    assert!(matches!(
        encode_page_jpeg(JpegEncoderType::Image, &rgb, 2, 2, 90),
        Err(Error::Render(_))
    ));
    assert!(matches!(
        encode_page_jpeg(JpegEncoderType::Image, &Vec::new(), 0, 0, 90),
        Err(Error::Render(_))
    ));
    assert!(matches!(
        encode_page_jpeg(JpegEncoderType::Vips, &vec![0u8; 12], 2, 2, 90),
        Err(Error::InvalidArgs(_))
    ));
}

#[test]
fn encoder_failure_becomes_render_error() {
    match encoded_page(Err("boom".to_string())) {
        Err(Error::Render(m)) => assert_eq!(m, "JPEG encode failed: boom"),
        _ => panic!("expected a rendering failure"),
    }
    assert_eq!(encoded_page(Ok(vec![1, 2, 3])).unwrap(), vec![1, 2, 3]);
}
