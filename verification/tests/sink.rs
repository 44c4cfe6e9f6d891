use image::codecs::png::PngDecoder;
use image::{ColorType, ImageDecoder, ImageError};
use mandelbrot::sink::{file_bytes, png_image, SinkError};

#[test]
fn png_image_can_be_read_back() {
    let pixels: Vec<u8> = vec![0, 255, 17, 200, 1, 254];
    let bytes = png_image(&pixels, (3, 2)).unwrap();
    assert_ne!(bytes, pixels);
    assert_eq!(&bytes[..8], &[0x89u8, b'P', b'N', b'G', 0x0d, 0x0a, 0x1a, 0x0a][..]);
    let decoder = PngDecoder::new(&bytes[..]).unwrap();
    assert_eq!(decoder.dimensions(), (3, 2));
    assert_eq!(decoder.color_type(), ColorType::L8);
    let mut back = vec![0u8; 6];
    decoder.read_image(&mut back).unwrap();
    assert_eq!(back, pixels);
}

#[test]
fn png_image_is_the_same_each_time() {
    let pixels: Vec<u8> = (0..200u32).map(|i| (i * 7 % 256) as u8).collect();
    assert_eq!(png_image(&pixels, (20, 10)), png_image(&pixels, (20, 10)));
    assert_ne!(png_image(&pixels, (20, 10)), png_image(&pixels, (10, 20)));
}

#[test]
fn png_image_of_no_pixels_is_refused() {
    assert_eq!(png_image(&[], (0, 5)), Err(SinkError::Refused));
    assert_eq!(png_image(&[], (5, 0)), Err(SinkError::Refused));
}

#[test]
fn png_image_rejects_a_side_beyond_32_bits() {
    if usize::BITS > 32 {
        let wide = (u32::MAX as usize) + 1;
        assert_eq!(png_image(&[], (wide, 0)), Err(SinkError::TooLarge));
        assert_eq!(png_image(&[], (0, wide)), Err(SinkError::TooLarge));
    }
}

#[test]
fn file_bytes_sorts_out_the_answer() {
    assert_eq!(file_bytes(Ok(vec![1, 2, 3])), Ok(vec![1, 2, 3]));
    let fault = ImageError::IoError(std::io::Error::new(std::io::ErrorKind::Other, "full"));
    assert_eq!(file_bytes(Err(fault)), Err(SinkError::Refused));
}
