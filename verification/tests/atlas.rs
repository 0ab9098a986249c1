use mt_client::atlas::{assign_texture_ids, create_atlas, pack_atlas, AtlasError, AtlasSlice};
use mt_client::image::Image;
use mt_client::media::MediaMgr;

fn solid(width: u32, height: u32, px: [u8; 4]) -> Image {
    Image { width, height, pixels: vec![px; (width * height) as usize] }
}

fn overlap(a: &AtlasSlice, b: &AtlasSlice) -> bool {
    a.x < b.x + b.width && b.x < a.x + a.width && a.y < b.y + b.height && b.y < a.y + a.height
}

#[test]
fn ids_in_order_of_first_appearance() {
    let names: Vec<String> = ["b", "a", "b", "c", "a"].iter().map(|s| s.to_string()).collect();
    let (unique, ids) = assign_texture_ids(&names);
    assert_eq!(unique, vec!["b", "a", "c"]);
    assert_eq!(ids, vec![0, 1, 0, 2, 1]);
}

#[test]
fn pack_places_textures_apart() {
    let textures = vec![solid(3, 2, [1, 1, 1, 255]), solid(2, 2, [2, 2, 2, 255]), solid(1, 5, [3, 3, 3, 255])];
    let atlas = pack_atlas(&textures).unwrap();
    assert_eq!(atlas.slices.len(), 3);
    let w = atlas.image.width;
    for (i, s) in atlas.slices.iter().enumerate() {
        assert_eq!((s.width, s.height), (textures[i].width, textures[i].height));
        assert!(s.x + s.width <= w && s.y + s.height <= atlas.image.height);
        for y in 0..s.height {
            for x in 0..s.width {
                assert_eq!(atlas.image.pixels[((s.y + y) * w + s.x + x) as usize], textures[i].pixels[0]);
            }
        }
        for (j, t) in atlas.slices.iter().enumerate() {
            if i != j {
                assert!(!overlap(s, t));
            }
        }
    }
    // the atlas grew from one pixel by doubling
    assert!(w.is_power_of_two() && atlas.image.height == w);
    assert!(w > 1);
}

#[test]
fn pack_nothing() {
    let atlas = pack_atlas(&vec![]).unwrap();
    assert_eq!((atlas.image.width, atlas.image.height), (1, 1));
    assert_eq!(atlas.image.pixels, vec![[0, 0, 0, 0]]);
}

#[test]
fn atlas_of_tiles() {
    let media = MediaMgr::new(vec![]);
    let tiles: Vec<String> = ["x.png", "y.png", "x.png"].iter().map(|s| s.to_string()).collect();
    let t = create_atlas(&media, &tiles).unwrap();
    assert_eq!(t.tile_ids, vec![0, 1, 0]);
    assert_eq!(t.atlas.slices.len(), 2);
    // missing textures are one random pixel each
    assert!(t.atlas.slices.iter().all(|s| s.width == 1 && s.height == 1));
}

#[test]
fn same_string_same_texture() {
    let names: Vec<String> = ["a", "b", "a", "c", "b", "a"].iter().map(|s| s.to_string()).collect();
    let (_, ids) = assign_texture_ids(&names);
    for i in 0..names.len() {
        for j in 0..names.len() {
            assert_eq!(ids[i] == ids[j], names[i] == names[j]);
        }
    }
}

#[test]
fn empty_texture_is_refused() {
    let textures = vec![solid(2, 2, [1, 1, 1, 255]), Image { width: 0, height: 3, pixels: vec![] }];
    assert!(matches!(pack_atlas(&textures), Err(AtlasError::EmptyTexture)));
}

#[test]
fn no_tiles_give_an_empty_atlas() {
    let t = create_atlas(&MediaMgr::new(vec![]), &vec![]).unwrap();
    assert!(t.tile_ids.is_empty() && t.atlas.slices.is_empty());
    assert_eq!((t.atlas.image.width, t.atlas.image.height), (1, 1));
}

#[test]
fn many_textures_are_packed_into_a_square() {
    let textures: Vec<Image> = (1..=12u32).map(|n| solid(n, 13 - n, [n as u8, 0, 0, 255])).collect();
    let atlas = pack_atlas(&textures).unwrap();
    assert_eq!(atlas.image.width, atlas.image.height);
    assert!(atlas.image.width.is_power_of_two());
    for (i, s) in atlas.slices.iter().enumerate() {
        assert_eq!((s.width, s.height), (textures[i].width, textures[i].height));
        for t in &atlas.slices[i + 1..] {
            assert!(!overlap(s, t));
        }
    }
}
