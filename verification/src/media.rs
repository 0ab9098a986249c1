//! Media files (textures and the like): the base pack shipped with the
//! client, and the pack the server sends, which shadows the base pack.

use crate::image::{Image, blend_px, blended, one_pixel_image, decode_texture, decoded, decoded_tga, flip_pixels, px};
use rand::Rng;
use crate::texture::{layer_names, lemma_modifier_skipped, texture_layer_names};
use vstd::hash_map::StringHashMap;
use vstd::prelude::*;
#[allow(unused_imports)]
use vstd::std_specs::iter::IteratorSpec;

verus! {

/// The media of the client: file name to file contents.
pub struct MediaMgr {
    base: StringHashMap<Vec<u8>>,
    server: StringHashMap<Vec<u8>>,
}

/// What a media manager stands for: the base pack and the server pack.
pub struct MediaView {
    pub base: Map<Seq<char>, Seq<u8>>,
    pub server: Map<Seq<char>, Seq<u8>>,
}

/// The file contents a pack holds.
pub open spec fn pack_view(m: Map<Seq<char>, Vec<u8>>) -> Map<Seq<char>, Seq<u8>> {
    Map::new(|k: Seq<char>| m.contains_key(k), |k: Seq<char>| m[k]@)
}

/// Name and contents of each file of a list.
pub open spec fn files_view(files: Seq<(String, Vec<u8>)>) -> Seq<(Seq<char>, Seq<u8>)> {
    files.map_values(|p: (String, Vec<u8>)| (p.0@, p.1@))
}

/// A pack with the files of a list added in order; a later file replaces an
/// earlier one of the same name.
pub open spec fn with_files(m: Map<Seq<char>, Seq<u8>>, files: Seq<(Seq<char>, Seq<u8>)>) -> Map<Seq<char>, Seq<u8>>
    decreases files.len(),
{
    if files.len() == 0 {
        m
    } else {
        with_files(m, files.drop_last()).insert(files.last().0, files.last().1)
    }
}

/// The contents of file `name`: from the server pack if it has the file,
/// else from the base pack.
pub open spec fn lookup(v: MediaView, name: Seq<char>) -> Option<Seq<u8>> {
    if v.server.contains_key(name) {
        Some(v.server[name])
    } else if v.base.contains_key(name) {
        Some(v.base[name])
    } else {
        None
    }
}

/// The decoded pixels of texture `name`, when the file is there and decodes,
/// either guessing its format or as TGA.
pub open spec fn texture_source(v: MediaView, name: Seq<char>) -> Option<(u32, u32, Seq<[u8; 4]>)> {
    match lookup(v, name) {
        Some(bytes) => match decoded(bytes) {
            Some(d) => Some(d),
            None => decoded_tga(bytes),
        },
        None => None,
    }
}

/// Texture `name` as the media manager loads it: the decoded pixels upside
/// down, as width, height and pixels.
pub open spec fn texture_image(v: MediaView, name: Seq<char>) -> Option<(u32, u32, Seq<[u8; 4]>)> {
    match texture_source(v, name) {
        Some(d) => Some((d.0, d.1, flip_pixels(d.0 as int, d.1 as int, d.2))),
        None => None,
    }
}

/// Width, height and pixels of an image.
pub open spec fn image_view(img: Image) -> (u32, u32, Seq<[u8; 4]>) {
    (img.width, img.height, img.pixels@)
}

impl View for MediaMgr {
    type V = MediaView;

    closed spec fn view(&self) -> MediaView {
        MediaView { base: pack_view(self.base@), server: pack_view(self.server@) }
    }
}

/// Adds the files of a list to a pack, in order.
fn add_files(pack: &mut StringHashMap<Vec<u8>>, files: Vec<(String, Vec<u8>)>)
    ensures
        pack_view(final(pack)@) == with_files(pack_view(old(pack)@), files_view(files@)),
{
    let ghost m0 = pack_view(pack@);
    let ghost fs = files@;
    let ghost mut done: Seq<(String, Vec<u8>)> = Seq::empty();
    for p in it: files.into_iter()
        invariant
            it.seq() == fs,
            done == it.seq().take(it.index()),
            pack_view(pack@) == with_files(m0, files_view(done)),
        ensures
            done == fs,
    {
        let ghost before = done;
        proof {
            done = done.push(p);
        }
        let (name, data) = p;
        pack.insert(name, data);
        proof {
            assert(files_view(done).drop_last() =~= files_view(before));
            assert(pack_view(pack@) =~= with_files(m0, files_view(done)));
            assert(done =~= it.seq().take(it.index() + 1));
        }
    }
}

/// Calls `rand::Rng::fill` on `rand::thread_rng()` to pick a random RGB
/// colour. Nothing is claimed of the colour.
#[verifier::external_body]
fn random_rgb() -> [u8; 3] {
    let mut c = [0u8; 3];
    rand::thread_rng().fill(&mut c);
    c
}

impl MediaMgr {
    /// A one-pixel image of a random opaque colour, for textures that cannot be
    /// had.
    pub fn rand_img() -> (img: Image)
        ensures
            img.valid(),
            img.width == 1,
            img.height == 1,
            img.pixels@[0][3] == 255,
    {
        one_pixel_image(random_rgb())
    }

    /// A manager with the given base pack and an empty server pack.
    pub fn new(base_files: Vec<(String, Vec<u8>)>) -> (m: Self)
        ensures
            m@.base == with_files(Map::empty(), files_view(base_files@)),
            m@.server == Map::<Seq<char>, Seq<u8>>::empty(),
    {
        let mut base = StringHashMap::new();
        proof {
            assert(pack_view(base@) =~= Map::<Seq<char>, Seq<u8>>::empty());
        }
        add_files(&mut base, base_files);
        let server = StringHashMap::new();
        let m = MediaMgr { base, server };
        proof {
            assert(m@.server =~= Map::<Seq<char>, Seq<u8>>::empty());
        }
        m
    }

    /// Adds files that the server sent, in order, to the server pack.
    pub fn add_server_media(&mut self, files: Vec<(String, Vec<u8>)>)
        ensures
            final(self)@.base == old(self)@.base,
            final(self)@.server == with_files(old(self)@.server, files_view(files@)),
    {
        add_files(&mut self.server, files);
    }

    /// The contents of file `file`: the server's if it sent one, else the
    /// base pack's.
    pub fn get(&self, file: &str) -> (r: Option<&[u8]>)
        ensures
            match lookup(self@, file@) {
                Some(bytes) => r matches Some(b) && b@ == bytes,
                None => r is None,
            },
    {
        match self.server.get(file) {
            Some(v) => Some(v.as_slice()),
            None => match self.base.get(file) {
                Some(v) => Some(v.as_slice()),
                None => None,
            },
        }
    }

    /// Texture `name`, decoded and flipped upside down; a random one-pixel
    /// image where there is no such file or it does not decode.
    pub fn texture(&self, name: &str) -> (img: Image)
        ensures
            img.valid(),
            match texture_image(self@, name@) {
                Some(t) => image_view(img) == t,
                None => img.width == 1 && img.height == 1 && img.pixels@[0][3] == 255,
            },
    {
        match self.get(name) {
            Some(payload) => match decode_texture(payload) {
                Some(img) => img,
                None => Self::rand_img(),
            },
            None => Self::rand_img(),
        }
    }
}

/// Pixel (x, y) of images drawn over each other, the first at the bottom,
/// each with its top left corner at the top left corner of the first: the
/// bottom image's pixel, with the pixel of each later image that covers
/// (x, y) blended onto it in turn.
pub open spec fn composed_pixel(imgs: Seq<Image>, x: int, y: int) -> [u8; 4]
    decreases imgs.len(),
{
    if imgs.len() <= 1 {
        imgs[0].pixel(x, y)
    } else {
        let below = composed_pixel(imgs.drop_last(), x, y);
        let top = imgs.last();
        if x < top.width && y < top.height {
            blend_px(below, top.pixel(x, y))
        } else {
            below
        }
    }
}

/// Draws images over each other, the first at the bottom; `None` for no
/// image.
pub fn compose(imgs: Vec<Image>) -> (r: Option<Image>)
    requires
        forall|i: int| 0 <= i < imgs@.len() ==> #[trigger] imgs@[i].valid(),
    ensures
        r is None <==> imgs@.len() == 0,
        r matches Some(img) ==> {
            &&& img.valid()
            &&& img.width == imgs@[0].width
            &&& img.height == imgs@[0].height
            &&& forall|x: int, y: int| 0 <= x < img.width && 0 <= y < img.height ==> #[trigger] img.pixel(x, y) == composed_pixel(imgs@, x, y)
        },
{
    let ghost all = imgs@;
    let ghost mut done: Seq<Image> = Seq::empty();
    let mut base: Option<Image> = None;
    assert(all.take(all.len() as int) =~= all);
    for img in it: imgs.into_iter()
        invariant
            it.seq() == all,
            all.take(all.len() as int) == all,
            forall|i: int| 0 <= i < all.len() ==> #[trigger] all[i].valid(),
            done == all.take(it.index()),
            base is None <==> done.len() == 0,
            base matches Some(b) ==> {
                &&& b.valid()
                &&& b.width == done[0].width
                &&& b.height == done[0].height
                &&& forall|x: int, y: int| 0 <= x < b.width && 0 <= y < b.height ==> #[trigger] b.pixel(x, y) == composed_pixel(done, x, y)
            },
        ensures
            done == all,
    {
        let ghost prev = done;
        proof {
            assert(all.take(it.index() + 1) =~= done.push(img));
            done = done.push(img);
            assert(done.drop_last() =~= prev);
            assert(done[0] == all[0]);
        }
        base = match base {
            Some(mut b) => {
                let ghost b0 = b;
                b.overlay(&img);
                proof {
                    assert forall|x: int, y: int| 0 <= x < b.width && 0 <= y < b.height implies #[trigger] b.pixel(x, y) == composed_pixel(done, x, y) by {
                        assert(b0.pixel(x, y) == composed_pixel(prev, x, y));
                    }
                }
                Some(b)
            },
            None => Some(img),
        };
    }
    base
}

/// Width and height of the image that texture string `s` stands for: those
/// of its bottom texture; one by one where the string names no texture or
/// the bottom one cannot be had.
pub open spec fn string_dims(v: MediaView, s: Seq<char>) -> (u32, u32) {
    if layer_names(s).len() == 0 {
        (1, 1)
    } else {
        match texture_source(v, layer_names(s)[0]) {
            Some(d) => (d.0, d.1),
            None => (1, 1),
        }
    }
}

/// Pixel (x, y) of texture `t` (width, height, pixels).
pub open spec fn texel(t: (u32, u32, Seq<[u8; 4]>), x: int, y: int) -> [u8; 4] {
    t.2[px(t.0 as int, x, y)]
}

/// Pixel (x, y) of the first `n` textures of `names` drawn over each other,
/// bottom first, leaving out those that cannot be had; the bottom one must be
/// had.
pub open spec fn string_pixel(v: MediaView, names: Seq<Seq<char>>, n: int, x: int, y: int) -> [u8; 4]
    decreases n,
{
    if n <= 1 {
        texel(texture_image(v, names[0])->0, x, y)
    } else {
        let below = string_pixel(v, names, n - 1, x, y);
        match texture_image(v, names[n - 1]) {
            Some(t) => if x < t.0 && y < t.1 {
                blend_px(below, texel(t, x, y))
            } else {
                below
            },
            None => below,
        }
    }
}

/// Pixel (x, y) of the image that texture string `s` stands for does not
/// depend on chance: the string names textures and the bottom one can be had,
/// and either (x, y) is not the top left pixel, onto which a random pixel is
/// drawn for each texture that cannot be had, or every texture can be had.
pub open spec fn pixel_known(v: MediaView, s: Seq<char>, x: int, y: int) -> bool {
    let names = layer_names(s);
    &&& names.len() > 0
    &&& texture_image(v, names[0]) is Some
    &&& (x, y) != (0int, 0int) || forall|j: int| 0 <= j < names.len() ==> #[trigger] texture_image(v, names[j]) is Some
}

/// `img` is an image that `texture_string` can give for `s`: of the size
/// `string_dims` gives, with the pixel `string_pixel` gives wherever it does
/// not depend on chance, and an opaque pixel where the string names no
/// texture.
pub open spec fn loaded_as(v: MediaView, s: Seq<char>, img: Image) -> bool {
    &&& img.valid()
    &&& (img.width, img.height) == string_dims(v, s)
    &&& forall|x: int, y: int| 0 <= x < img.width && 0 <= y < img.height && pixel_known(v, s, x, y)
        ==> #[trigger] img.pixel(x, y) == string_pixel(v, layer_names(s), layer_names(s).len() as int, x, y)
    &&& layer_names(s).len() == 0 ==> img.pixels@[0][3] == 255
}

/// The images loaded for the first `n` layers, drawn over each other, give
/// `string_pixel` at every pixel that does not depend on chance.
proof fn lemma_string_pixel(v: MediaView, names: Seq<Seq<char>>, imgs: Seq<Image>, n: int, x: int, y: int)
    requires
        1 <= n <= names.len(),
        imgs.len() == names.len(),
        forall|j: int| 0 <= j < names.len() ==> match #[trigger] texture_image(v, names[j]) {
            Some(t) => image_view(imgs[j]) == t,
            None => imgs[j].width == 1 && imgs[j].height == 1,
        },
        texture_image(v, names[0]) is Some,
        0 <= x,
        0 <= y,
        (x, y) != (0int, 0int) || forall|j: int| 0 <= j < n ==> #[trigger] texture_image(v, names[j]) is Some,
    ensures
        composed_pixel(imgs.take(n), x, y) == string_pixel(v, names, n, x, y),
    decreases n,
{
    let ts = imgs.take(n);
    if n == 1 {
        assert(ts[0] == imgs[0]);
        assert(texture_image(v, names[0]) is Some);
    } else {
        assert(ts.drop_last() =~= imgs.take(n - 1));
        assert(ts.last() == imgs[n - 1]);
        lemma_string_pixel(v, names, imgs, n - 1, x, y);
        assert(texture_image(v, names[n - 1]) is Some || imgs[n - 1].width == 1);
    }
}

impl MediaMgr {
    /// The image that a texture string stands for: the named textures drawn
    /// over each other, bottom first; a random one-pixel image where the
    /// string names none.
    pub fn texture_string(&self, texture: &str) -> (img: Image)
        ensures
            loaded_as(self@, texture@, img),
    {
        let names = texture_layer_names(texture);
        let mut imgs: Vec<Image> = Vec::new();
        let mut i: usize = 0;
        while i < names.len()
            invariant
                0 <= i <= names@.len(),
                names@.len() == layer_names(texture@).len(),
                forall|j: int| 0 <= j < names@.len() ==> #[trigger] names@[j]@ == layer_names(texture@)[j],
                imgs@.len() == i,
                forall|j: int| 0 <= j < imgs@.len() ==> #[trigger] imgs@[j].valid(),
                i > 0 ==> match texture_source(self@, layer_names(texture@)[0]) {
                    Some(d) => imgs@[0].width == d.0 && imgs@[0].height == d.1,
                    None => imgs@[0].width == 1 && imgs@[0].height == 1,
                },
                forall|j: int| 0 <= j < i ==> match #[trigger] texture_image(self@, layer_names(texture@)[j]) {
                    Some(t) => image_view(imgs@[j]) == t,
                    None => imgs@[j].width == 1 && imgs@[j].height == 1,
                },
            decreases names@.len() - i,
        {
            let t = self.texture(names[i].as_str());
            imgs.push(t);
            i = i + 1;
        }
        let ghost all = imgs@;
        let ghost s = texture@;
        proof {
            let n = layer_names(s).len() as int;
            assert(all.take(n) =~= all);
            if n > 0 && texture_image(self@, layer_names(s)[0]) is Some {
                assert forall|x: int, y: int| 0 <= x && 0 <= y && pixel_known(self@, s, x, y)
                    implies composed_pixel(all, x, y) == string_pixel(self@, layer_names(s), n, x, y) by {
                    lemma_string_pixel(self@, layer_names(s), all, n, x, y);
                }
            }
        }
        match compose(imgs) {
            Some(img) => img,
            None => Self::rand_img(),
        }
    }
}

/// Once files are added to the server pack, reading one of them gives the
/// contents of the last file of that name in the list, whatever the base
/// pack holds.
pub proof fn lemma_read_after_add(v: MediaView, files: Seq<(Seq<char>, Seq<u8>)>, i: int)
    requires
        0 <= i < files.len(),
        forall|j: int| i < j < files.len() ==> #[trigger] files[j].0 != files[i].0,
    ensures
        lookup(MediaView { base: v.base, server: with_files(v.server, files) }, files[i].0) == Some(files[i].1),
    decreases files.len(),
{
    if i < files.len() - 1 {
        assert forall|j: int| i < j < files.drop_last().len() implies #[trigger] files.drop_last()[j].0 != files.drop_last()[i].0 by {
            assert(files.drop_last()[j] == files[j]);
        }
        lemma_read_after_add(v, files.drop_last(), i);
    }
}

/// Adding files to the server pack leaves every other file as it was.
pub proof fn lemma_other_files_unchanged(v: MediaView, files: Seq<(Seq<char>, Seq<u8>)>, name: Seq<char>)
    requires
        forall|j: int| 0 <= j < files.len() ==> #[trigger] files[j].0 != name,
    ensures
        lookup(MediaView { base: v.base, server: with_files(v.server, files) }, name) == lookup(v, name),
    decreases files.len(),
{
    if files.len() > 0 {
        assert forall|j: int| 0 <= j < files.drop_last().len() implies #[trigger] files.drop_last()[j].0 != name by {
            assert(files.drop_last()[j] == files[j]);
        }
        lemma_other_files_unchanged(v, files.drop_last(), name);
    }
}

/// A texture string that names one texture that can be had stands for that
/// texture: its size, and every one of its pixels.
pub proof fn lemma_single_layer(v: MediaView, s: Seq<char>)
    requires
        layer_names(s).len() == 1,
        texture_image(v, layer_names(s)[0]) is Some,
    ensures
        ({
            let t = texture_image(v, layer_names(s)[0])->0;
            &&& string_dims(v, s) == (t.0, t.1)
            &&& forall|x: int, y: int| pixel_known(v, s, x, y) && string_pixel(v, layer_names(s), 1, x, y) == #[trigger] texel(t, x, y)
        }),
{
}


/// Drawing images over each other alpha-blends each layer onto the layers
/// below, their top left corners together: a single image is itself; where
/// the top layer does not reach, the layers below show; where its pixel is
/// fully transparent the layers below show, where it is fully opaque it
/// shows, and otherwise it is blended onto them.
pub proof fn lemma_compose_layers(imgs: Seq<Image>, x: int, y: int)
    requires
        imgs.len() >= 1,
    ensures
        imgs.len() == 1 ==> composed_pixel(imgs, x, y) == imgs[0].pixel(x, y),
        imgs.len() >= 2 ==> ({
            let top = imgs.last();
            let below = composed_pixel(imgs.drop_last(), x, y);
            &&& !(x < top.width && y < top.height) ==> composed_pixel(imgs, x, y) == below
            &&& x < top.width && y < top.height && top.pixel(x, y)[3] == 0 ==> composed_pixel(imgs, x, y) == below
            &&& x < top.width && y < top.height && top.pixel(x, y)[3] == 255 ==> composed_pixel(imgs, x, y) == top.pixel(x, y)
            &&& x < top.width && y < top.height && 0 < top.pixel(x, y)[3] < 255 ==> composed_pixel(imgs, x, y) == blended(below, top.pixel(x, y))
        }),
{
}

/// The same holds of the textures a texture string names: each texture that
/// can be had is alpha-blended onto those below where it reaches, and a
/// texture that cannot be had leaves every pixel but the top left one.
pub proof fn lemma_string_layers(v: MediaView, names: Seq<Seq<char>>, n: int, x: int, y: int)
    requires
        2 <= n,
    ensures
        ({
            let below = string_pixel(v, names, n - 1, x, y);
            match texture_image(v, names[n - 1]) {
                Some(t) => {
                    &&& !(x < t.0 && y < t.1) ==> string_pixel(v, names, n, x, y) == below
                    &&& x < t.0 && y < t.1 && texel(t, x, y)[3] == 0 ==> string_pixel(v, names, n, x, y) == below
                    &&& x < t.0 && y < t.1 && texel(t, x, y)[3] == 255 ==> string_pixel(v, names, n, x, y) == texel(t, x, y)
                    &&& x < t.0 && y < t.1 && 0 < texel(t, x, y)[3] < 255 ==> string_pixel(v, names, n, x, y) == blended(below, texel(t, x, y))
                },
                None => string_pixel(v, names, n, x, y) == below,
            }
        }),
{
}

/// A texture modifier joined to a texture name with `^`, before or after it,
/// is skipped: `texture_string` promises the same images for the joined
/// string as for the name alone.
pub proof fn lemma_modifier_skipped_image(v: MediaView, name: Seq<char>, modifier: Seq<char>, img: Image)
    requires
        name.len() > 0,
        name[0] != '[',
        forall|i: int| 0 <= i < name.len() ==> #[trigger] name[i] != '^',
        modifier.len() > 0,
        modifier[0] == '[',
        forall|i: int| 0 <= i < modifier.len() ==> #[trigger] modifier[i] != '^',
    ensures
        loaded_as(v, name + seq!['^'] + modifier, img) == loaded_as(v, name, img),
        loaded_as(v, modifier + seq!['^'] + name, img) == loaded_as(v, name, img),
{
    lemma_modifier_skipped(name, modifier);
}

/// A file in the server pack shadows the base pack's file of the same name.
pub proof fn lemma_server_shadows_base(v: MediaView, name: Seq<char>)
    requires
        v.server.contains_key(name),
    ensures
        lookup(v, name) == Some(v.server[name]),
{
}

} // verus!
