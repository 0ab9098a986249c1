use mt_client::image::{decode_texture, CopyError, Image};
use mt_client::media::MediaMgr;

fn img(width: u32, height: u32, f: impl Fn(u32, u32) -> [u8; 4]) -> Image {
    let mut pixels = Vec::new();
    for y in 0..height {
        for x in 0..width {
            pixels.push(f(x, y));
        }
    }
    Image { width, height, pixels }
}

fn at(i: &Image, x: u32, y: u32) -> [u8; 4] {
    i.pixels[(y * i.width + x) as usize]
}

#[test]
fn new_image_is_transparent_black() {
    let i = Image::new(3, 2);
    assert_eq!((i.width, i.height), (3, 2));
    assert_eq!(i.pixels, vec![[0, 0, 0, 0]; 6]);
}

#[test]
fn flip_vertical_reverses_rows() {
    let i = img(2, 3, |x, y| [x as u8, y as u8, 0, 255]);
    let f = i.flip_vertical();
    assert_eq!((f.width, f.height), (2, 3));
    for y in 0..3 {
        for x in 0..2 {
            assert_eq!(at(&f, x, y), at(&i, x, 2 - y));
        }
    }
    let back = f.flip_vertical();
    assert_eq!(back.pixels, i.pixels);
}

#[test]
fn flip_empty_image() {
    let i = Image { width: 0, height: 5, pixels: vec![] };
    assert!(i.flip_vertical().pixels.is_empty());
}

#[test]
fn copy_from_places_image() {
    let mut dst = Image::new(4, 4);
    let src = img(2, 2, |x, y| [1 + x as u8, 1 + y as u8, 9, 255]);
    assert_eq!(dst.copy_from(&src, 1, 2), Ok(()));
    for y in 0..4 {
        for x in 0..4 {
            let expect = if (1..3).contains(&x) && (2..4).contains(&y) { at(&src, x - 1, y - 2) } else { [0, 0, 0, 0] };
            assert_eq!(at(&dst, x, y), expect);
        }
    }
}

#[test]
fn copy_from_out_of_bounds_fails() {
    let mut dst = Image::new(4, 4);
    let src = img(2, 2, |_, _| [5, 5, 5, 5]);
    assert_eq!(dst.copy_from(&src, 3, 0), Err(CopyError::DimensionMismatch));
    assert_eq!(dst.pixels, vec![[0, 0, 0, 0]; 16]);
    assert_eq!(dst.copy_from(&src, u32::MAX, 0), Err(CopyError::DimensionMismatch));
}

#[test]
fn overlay_opaque_replaces_and_transparent_keeps() {
    let mut bottom = img(3, 3, |_, _| [10, 20, 30, 255]);
    let top = img(2, 1, |x, _| if x == 0 { [200, 100, 50, 255] } else { [1, 2, 3, 0] });
    bottom.overlay(&top);
    assert_eq!((bottom.width, bottom.height), (3, 3));
    assert_eq!(at(&bottom, 0, 0), [200, 100, 50, 255]);
    assert_eq!(at(&bottom, 1, 0), [10, 20, 30, 255]);
    assert_eq!(at(&bottom, 2, 2), [10, 20, 30, 255]);
}

fn png_bytes(i: &Image) -> Vec<u8> {
    let flat: Vec<u8> = i.pixels.iter().flatten().copied().collect();
    let buf = image::RgbaImage::from_raw(i.width, i.height, flat).unwrap();
    let mut out = std::io::Cursor::new(Vec::new());
    buf.write_to(&mut out, image::ImageOutputFormat::Png).unwrap();
    out.into_inner()
}

#[test]
fn decode_texture_flips_png() {
    let i = img(2, 2, |x, y| [x as u8 * 100, y as u8 * 100, 7, 255]);
    let d = decode_texture(&png_bytes(&i)).unwrap();
    assert_eq!((d.width, d.height), (2, 2));
    assert_eq!(d.pixels, i.flip_vertical().pixels);
    assert_ne!(d.pixels, i.pixels);
}

#[test]
fn decode_texture_tga_fallback() {
    let i = img(1, 2, |_, y| [y as u8, 0, 0, 255]);
    let flat: Vec<u8> = i.pixels.iter().flatten().copied().collect();
    let mut out = std::io::Cursor::new(Vec::new());
    image::RgbaImage::from_raw(1, 2, flat).unwrap().write_to(&mut out, image::ImageOutputFormat::Tga).unwrap();
    let d = decode_texture(&out.into_inner()).unwrap();
    assert_eq!((d.width, d.height), (1, 2));
}

#[test]
fn decode_garbage_fails() {
    assert!(decode_texture(b"not an image").is_none());
}

#[test]
fn random_image_is_one_opaque_pixel() {
    let r = MediaMgr::rand_img();
    assert_eq!((r.width, r.height, r.pixels.len()), (1, 1, 1));
    assert_eq!(r.pixels[0][3], 255);
}

#[test]
fn zero_width_image_decodes() {
    let mut bytes = b"farbfeld".to_vec();
    bytes.extend_from_slice(&0u32.to_be_bytes());
    bytes.extend_from_slice(&2u32.to_be_bytes());
    let img = decode_texture(&bytes).unwrap();
    assert_eq!((img.width, img.height), (0, 2));
    assert!(img.pixels.is_empty());
}

#[test]
fn one_pixel_image_is_opaque_colour() {
    let i = mt_client::image::one_pixel_image([1, 2, 3]);
    assert_eq!((i.width, i.height), (1, 1));
    assert_eq!(i.pixels, vec![[1, 2, 3, 255]]);
}
