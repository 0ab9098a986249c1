use mt_client::image::Image;
use mt_client::media::{compose, MediaMgr};
use mt_client::texture::{split_texture_string, texture_layer_names};

fn png(width: u32, height: u32, px: [u8; 4]) -> Vec<u8> {
    let flat: Vec<u8> = (0..width * height).flat_map(|_| px).collect();
    let mut out = std::io::Cursor::new(Vec::new());
    image::RgbaImage::from_raw(width, height, flat).unwrap().write_to(&mut out, image::ImageOutputFormat::Png).unwrap();
    out.into_inner()
}

fn file(name: &str, data: Vec<u8>) -> (String, Vec<u8>) {
    (name.to_string(), data)
}

#[test]
fn base_files_are_found() {
    let m = MediaMgr::new(vec![file("a.png", vec![1, 2]), file("b.png", vec![3])]);
    assert_eq!(m.get("a.png"), Some(&[1u8, 2][..]));
    assert_eq!(m.get("b.png"), Some(&[3u8][..]));
    assert_eq!(m.get("c.png"), None);
}

#[test]
fn server_media_shadows_base() {
    let mut m = MediaMgr::new(vec![file("a.png", vec![1]), file("b.png", vec![2])]);
    m.add_server_media(vec![file("a.png", vec![9])]);
    assert_eq!(m.get("a.png"), Some(&[9u8][..]));
    assert_eq!(m.get("b.png"), Some(&[2u8][..]));
}

#[test]
fn later_file_of_same_name_wins() {
    let mut m = MediaMgr::new(vec![file("x", vec![1]), file("x", vec![2])]);
    assert_eq!(m.get("x"), Some(&[2u8][..]));
    m.add_server_media(vec![file("y", vec![3]), file("y", vec![4])]);
    m.add_server_media(vec![file("z", vec![5])]);
    assert_eq!(m.get("y"), Some(&[4u8][..]));
    assert_eq!(m.get("z"), Some(&[5u8][..]));
}

#[test]
fn missing_texture_is_random_pixel() {
    let m = MediaMgr::new(vec![file("broken.png", vec![0, 1, 2])]);
    for name in ["nothing.png", "broken.png"] {
        let t = m.texture(name);
        assert_eq!((t.width, t.height), (1, 1));
        assert_eq!(t.pixels[0][3], 255);
    }
}

#[test]
fn texture_is_decoded() {
    let m = MediaMgr::new(vec![file("red.png", png(2, 3, [255, 0, 0, 255]))]);
    let t = m.texture("red.png");
    assert_eq!((t.width, t.height), (2, 3));
    assert!(t.pixels.iter().all(|p| *p == [255, 0, 0, 255]));
}

#[test]
fn split_like_str_split() {
    for s in ["", "a", "a^b", "^", "a^", "^b", "a^^b", "[mod^x.png^"] {
        let ours: Vec<String> = split_texture_string(s);
        let std: Vec<String> = s.split('^').map(|p| p.to_string()).collect();
        assert_eq!(ours, std);
    }
}

#[test]
fn layer_names_skip_modifiers() {
    assert_eq!(texture_layer_names("a.png^^[crack^b.png"), vec!["a.png", "no_texture.png", "b.png"]);
    assert_eq!(texture_layer_names("[only"), Vec::<String>::new());
    assert_eq!(texture_layer_names(""), vec!["no_texture.png"]);
}

#[test]
fn texture_string_overlays_in_order() {
    let m = MediaMgr::new(vec![
        file("base.png", png(2, 2, [0, 0, 255, 255])),
        file("top.png", png(1, 1, [0, 255, 0, 255])),
    ]);
    let t = m.texture_string("base.png^top.png");
    assert_eq!((t.width, t.height), (2, 2));
    // the bottom row after flipping is row 1; top.png covers pixel (0, 0)
    assert_eq!(t.pixels[0], [0, 255, 0, 255]);
    assert_eq!(t.pixels[1], [0, 0, 255, 255]);
    assert_eq!(t.pixels[3], [0, 0, 255, 255]);
}

#[test]
fn texture_string_of_modifiers_only_is_random_pixel() {
    let m = MediaMgr::new(vec![]);
    let t = m.texture_string("[crack");
    assert_eq!((t.width, t.height, t.pixels.len()), (1, 1, 1));
}

#[test]
fn compose_nothing_is_none() {
    assert!(compose(vec![]).is_none());
    let one = Image { width: 1, height: 1, pixels: vec![[1, 2, 3, 4]] };
    assert_eq!(compose(vec![one]).unwrap().pixels, vec![[1, 2, 3, 4]]);
}

#[test]
fn single_layer_string_is_the_texture() {
    let m = MediaMgr::new(vec![file("red.png", png(2, 3, [255, 0, 0, 255]))]);
    let a = m.texture_string("red.png");
    let b = m.texture("red.png");
    assert_eq!((a.width, a.height), (2, 3));
    assert_eq!(a.pixels, b.pixels);
}

#[test]
fn atlas_holds_the_loaded_textures() {
    let m = MediaMgr::new(vec![
        file("red.png", png(2, 3, [255, 0, 0, 255])),
        file("blue.png", png(4, 1, [0, 0, 255, 255])),
    ]);
    let tiles: Vec<String> = ["blue.png", "red.png", "blue.png"].iter().map(|s| s.to_string()).collect();
    let t = mt_client::atlas::create_atlas(&m, &tiles).unwrap();
    assert_eq!(t.tile_ids, vec![0, 1, 0]);
    let img = &t.atlas.image;
    for (s, px) in t.atlas.slices.iter().zip([[0u8, 0, 255, 255], [255, 0, 0, 255]]) {
        for y in 0..s.height {
            for x in 0..s.width {
                assert_eq!(img.pixels[((s.y + y) * img.width + s.x + x) as usize], px);
            }
        }
    }
    assert_eq!((t.atlas.slices[0].width, t.atlas.slices[0].height), (4, 1));
    assert_eq!((t.atlas.slices[1].width, t.atlas.slices[1].height), (2, 3));
}

#[test]
fn missing_layer_only_touches_the_top_left_pixel() {
    let m = MediaMgr::new(vec![file("red.png", png(3, 2, [255, 0, 0, 255]))]);
    let t = m.texture_string("red.png^nope.png");
    assert_eq!((t.width, t.height), (3, 2));
    for (k, p) in t.pixels.iter().enumerate() {
        if k != 0 {
            assert_eq!(*p, [255, 0, 0, 255]);
        }
    }
}

#[test]
fn modifiers_are_skipped() {
    let m = MediaMgr::new(vec![file("red.png", png(2, 3, [255, 0, 0, 255]))]);
    let plain = m.texture_string("red.png");
    for s in ["red.png^[crack", "[crack^red.png"] {
        let t = m.texture_string(s);
        assert_eq!((t.width, t.height), (plain.width, plain.height));
        assert_eq!(t.pixels, plain.pixels);
    }
}
