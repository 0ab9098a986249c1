//! The texture atlas: every texture that the node tiles use, packed into one
//! image by guillotiere's atlas allocator.

use crate::image::Image;
use crate::media::{MediaMgr, MediaView, loaded_as, string_dims};
use guillotiere::SimpleAtlasAllocator;
use vstd::hash_map::StringHashMap;
use vstd::arithmetic::power2::{lemma2_to64, lemma_pow2_strictly_increases, lemma_pow2_unfold, pow2};
use vstd::multiset::Multiset;
use vstd::prelude::*;

verus! {

/// guillotiere's simple atlas allocator, held opaque.
#[verifier::external_type_specification]
#[verifier::external_body]
pub struct ExSimpleAtlasAllocator(guillotiere::SimpleAtlasAllocator);

/// The width and height of the atlas that an allocator allocates in.
pub uninterp spec fn allocator_size(a: SimpleAtlasAllocator) -> (int, int);

/// The free rectangles that an allocator's free lists hold, as (min x,
/// min y, max x, max y), max exclusive, each counted as often as the lists
/// hold it.
pub uninterp spec fn free_rects(a: SimpleAtlasAllocator) -> Multiset<(int, int, int, int)>;

/// Two rectangles (min x, min y, max x, max y) share no pixel.
pub open spec fn disjoint(a: (int, int, int, int), b: (int, int, int, int)) -> bool {
    a.2 <= b.0 || b.2 <= a.0 || a.3 <= b.1 || b.3 <= a.1
}

/// A rectangle holds at least one pixel.
pub open spec fn nonempty(r: (int, int, int, int)) -> bool {
    r.0 < r.2 && r.1 < r.3
}

/// Rectangle `r` lies inside rectangle `c`.
pub open spec fn inside(r: (int, int, int, int), c: (int, int, int, int)) -> bool {
    c.0 <= r.0 && c.1 <= r.1 && r.2 <= c.2 && r.3 <= c.3
}

/// A `w` x `h` rectangle fits into rectangle `c`.
pub open spec fn fits(c: (int, int, int, int), w: int, h: int) -> bool {
    c.2 - c.0 >= w && c.3 - c.1 >= h
}

/// Every free rectangle of `a` lies between the origin and its max corner.
pub open spec fn free_rects_placed(a: SimpleAtlasAllocator) -> bool {
    forall|c: (int, int, int, int)| #[trigger] free_rects(a).count(c) > 0 ==> 0 <= c.0 <= c.2 <= i32::MAX && 0 <= c.1 <= c.3 <= i32::MAX
}

/// Calls `SimpleAtlasAllocator::new` with default options. Claims what the
/// source shows: the allocator has the given size, and its free lists hold
/// one rectangle, the whole atlas.
#[verifier::external_body]
fn allocator_new(w: i32, h: i32) -> (a: SimpleAtlasAllocator)
    ensures
        allocator_size(a) == (w as int, h as int),
        forall|r: (int, int, int, int)| #[trigger] free_rects(a).count(r) == (if r == (0int, 0int, w as int, h as int) { 1nat } else { 0nat }),
{
    SimpleAtlasAllocator::new(guillotiere::size2(w, h))
}

/// Calls `SimpleAtlasAllocator::size`. Claims that it gives the allocator's
/// size.
#[verifier::external_body]
fn allocator_size_of(a: &SimpleAtlasAllocator) -> (r: (i32, i32))
    ensures
        (r.0 as int, r.1 as int) == allocator_size(*a),
{
    let s = a.size();
    (s.width, s.height)
}

/// Calls `SimpleAtlasAllocator::grow`, which panics where the new size is
/// smaller than the old, and can overflow where the old size is negative. Claims what the source shows: the size becomes the
/// new one; the free lists keep their rectangles and gain at most two, each
/// once, which are not empty, lie in the new atlas outside the old one and
/// share no pixel with each other. Where both sides double, one of them is
/// the lower half, from the old height down.
#[verifier::external_body]
fn allocator_grow(a: &mut SimpleAtlasAllocator, w: i32, h: i32)
    requires
        allocator_size(*old(a)).0 >= 0,
        allocator_size(*old(a)).1 >= 0,
        w >= allocator_size(*old(a)).0,
        h >= allocator_size(*old(a)).1,
    ensures
        allocator_size(*final(a)) == (w as int, h as int),
        forall|r: (int, int, int, int)| free_rects(*old(a)).count(r) <= #[trigger] free_rects(*final(a)).count(r) <= free_rects(*old(a)).count(r) + 1,
        forall|r: (int, int, int, int)| #[trigger] free_rects(*final(a)).count(r) > free_rects(*old(a)).count(r) ==> {
            &&& nonempty(r)
            &&& inside(r, (0, 0, w as int, h as int))
            &&& disjoint(r, (0, 0, allocator_size(*old(a)).0, allocator_size(*old(a)).1))
        },
        forall|r1: (int, int, int, int), r2: (int, int, int, int)|
            #[trigger] free_rects(*final(a)).count(r1) > free_rects(*old(a)).count(r1)
            && #[trigger] free_rects(*final(a)).count(r2) > free_rects(*old(a)).count(r2) && r1 != r2 ==> disjoint(r1, r2),
        ({
            let (ow, oh) = allocator_size(*old(a));
            ow >= 1 && oh >= 1 && w == 2 * ow && h == 2 * oh
                ==> free_rects(*final(a)).count((0, oh, w as int, h as int)) > free_rects(*old(a)).count((0, oh, w as int, h as int))
        }),
{
    a.grow(guillotiere::size2(w, h));
}

/// Calls `SimpleAtlasAllocator::allocate` with a `w` x `h` size. Claims what
/// guillotiere 0.6.2's source shows with the default alignment of one: the
/// size stays; a rectangle is handed out exactly where the free lists hold
/// one that the size fits into (never for an empty size); it is then placed
/// at the top left corner of such a free rectangle, which leaves the lists
/// once while the other rectangles stay, and at most two rectangles join
/// them, each once, not empty, inside the chosen one, sharing no pixel with
/// the handed out rectangle or each other. Unless the size is the chosen
/// rectangle's, one of them is what `guillotine_rect` calls the split
/// rectangle: the rest of the chosen one to the right of the handed out
/// rectangle at full height, or below it at full width. Otherwise the free
/// lists stay. Which fitting rectangle is chosen is not claimed.
#[verifier::external_body]
fn allocator_allocate(a: &mut SimpleAtlasAllocator, w: i32, h: i32) -> (r: Option<(i32, i32, i32, i32)>)
    requires
        free_rects_placed(*old(a)),
    ensures
        allocator_size(*final(a)) == allocator_size(*old(a)),
        r is Some <==> (w > 0 && h > 0 && exists|c: (int, int, int, int)| #[trigger] free_rects(*old(a)).count(c) > 0 && fits(c, w as int, h as int)),
        r is None ==> forall|x: (int, int, int, int)| #[trigger] free_rects(*final(a)).count(x) == free_rects(*old(a)).count(x),
        r matches Some(rect) ==> exists|c: (int, int, int, int)| {
            &&& #[trigger] free_rects(*old(a)).count(c) > 0
            &&& fits(c, w as int, h as int)
            &&& rect.0 == c.0 && rect.1 == c.1 && rect.2 == c.0 + w && rect.3 == c.1 + h
            &&& allocate_rest(*old(a), *final(a), c, (rect.0 as int, rect.1 as int, rect.2 as int, rect.3 as int))
        },
{
    match a.allocate(guillotiere::size2(w, h)) {
        Some(r) => Some((r.min.x, r.min.y, r.max.x, r.max.y)),
        None => None,
    }
}

/// How many more times `after` holds `x` than `before` with one `c` taken out.
pub open spec fn gained(before: SimpleAtlasAllocator, after: SimpleAtlasAllocator, c: (int, int, int, int), x: (int, int, int, int)) -> int {
    free_rects(after).count(x) - (free_rects(before).count(x) - if x == c { 1int } else { 0int })
}

/// The free lists after `rect` was cut out of free rectangle `c`, at its top
/// left corner: one `c` leaves them, the others stay, and each rectangle that
/// joins them joins once, is not empty, lies inside `c` and shares no pixel
/// with `rect` or another that joins. Unless `rect` is all of `c`, one that
/// joins is the rest of `c` to the right of `rect` at `c`'s full height, or
/// the rest of `c` below `rect` at `c`'s full width.
pub open spec fn allocate_rest(before: SimpleAtlasAllocator, after: SimpleAtlasAllocator, c: (int, int, int, int), rect: (int, int, int, int)) -> bool {
    &&& forall|x: (int, int, int, int)| #[trigger] gained(before, after, c, x) >= 0
    &&& (c.2 - c.0 == rect.2 - rect.0 && c.3 - c.1 == rect.3 - rect.1)
        || (c.2 > rect.2 && gained(before, after, c, (rect.2, c.1, c.2, c.3)) > 0)
        || (c.3 > rect.3 && gained(before, after, c, (c.0, rect.3, c.2, c.3)) > 0)
    &&& forall|x: (int, int, int, int)| #[trigger] gained(before, after, c, x) <= 1
    &&& forall|x: (int, int, int, int)| #[trigger] gained(before, after, c, x) > 0 ==> nonempty(x) && inside(x, c) && disjoint(x, rect)
    &&& forall|x1: (int, int, int, int), x2: (int, int, int, int)|
        #[trigger] gained(before, after, c, x1) > 0 && #[trigger] gained(before, after, c, x2) > 0 && x1 != x2 ==> disjoint(x1, x2)
}

/// Where a texture lies in the atlas.
#[derive(Clone, Copy, Debug, PartialEq, Eq, Structural)]
pub struct AtlasSlice {
    pub x: u32,
    pub y: u32,
    pub width: u32,
    pub height: u32,
}

/// The atlas image and where each texture lies in it.
pub struct Atlas {
    pub image: Image,
    pub slices: Vec<AtlasSlice>,
}

/// Why no atlas could be built.
#[derive(Clone, Copy, Debug, PartialEq, Eq, Structural)]
pub enum AtlasError {
    /// The atlas would grow past what its coordinates or memory can hold.
    TooLarge,
    /// A texture has no pixels, so no place fits it.
    EmptyTexture,
}

/// The rectangle of a slice.
pub open spec fn slice_rect(s: AtlasSlice) -> (int, int, int, int) {
    (s.x as int, s.y as int, s.x + s.width, s.y + s.height)
}

/// Pixel (x, y) lies in the slice.
pub open spec fn in_slice(s: AtlasSlice, x: int, y: int) -> bool {
    s.x <= x < s.x + s.width && s.y <= y < s.y + s.height
}

/// An atlas for `textures`: one slice per texture, of its size, inside the
/// image, no two sharing a pixel; each slice holds its texture, and every
/// pixel outside the slices is transparent black.
pub open spec fn atlas_of(atlas: Atlas, textures: Seq<Image>) -> bool {
    &&& atlas.image.valid()
    &&& atlas.slices@.len() == textures.len()
    &&& forall|i: int| 0 <= i < textures.len() ==> {
        let s = #[trigger] atlas.slices@[i];
        &&& s.width == textures[i].width
        &&& s.height == textures[i].height
        &&& s.x + s.width <= atlas.image.width
        &&& s.y + s.height <= atlas.image.height
    }
    &&& forall|i: int, j: int| 0 <= i < textures.len() && 0 <= j < textures.len() && i != j ==> disjoint(
        slice_rect(#[trigger] atlas.slices@[i]),
        slice_rect(#[trigger] atlas.slices@[j]),
    )
    &&& forall|i: int, x: int, y: int| 0 <= i < textures.len() && 0 <= x < textures[i].width && 0 <= y < textures[i].height
        ==> #[trigger] atlas.image.pixel(atlas.slices@[i].x + x, atlas.slices@[i].y + y) == textures[i].pixel(x, y)
    &&& forall|x: int, y: int| 0 <= x < atlas.image.width && 0 <= y < atlas.image.height && (forall|i: int| 0 <= i < textures.len() ==> !in_slice(#[trigger] atlas.slices@[i], x, y))
        ==> #[trigger] atlas.image.pixel(x, y) == [0u8, 0u8, 0u8, 0u8]
}

/// The larger of two numbers.
pub open spec fn larger(a: int, b: int) -> int {
    if a < b { b } else { a }
}

/// The least `k` with `2^k >= n`.
pub open spec fn cover_log(n: int) -> nat
    decreases n,
{
    if n <= 1 {
        0
    } else {
        1 + cover_log((n + 1) / 2)
    }
}

/// How many doublings packing textures of these sizes (width, height) takes
/// at most: each texture doubles the atlas until a square of its larger side
/// fits, and once more.
pub open spec fn pack_cost(dims: Seq<(int, int)>) -> int
    decreases dims.len(),
{
    if dims.len() == 0 {
        0
    } else {
        pack_cost(dims.drop_last()) + 1 + cover_log(larger(dims.last().0, dims.last().1))
    }
}

/// The atlas for textures of these sizes can be built: no texture is empty,
/// the side stays within `2^30`, and the pixels of the atlas can be counted
/// in a `usize`.
pub open spec fn packable(dims: Seq<(int, int)>) -> bool {
    &&& forall|i: int| 0 <= i < dims.len() ==> #[trigger] dims[i].0 > 0 && dims[i].1 > 0
    &&& pack_cost(dims) <= 30
    &&& pow2(pack_cost(dims) as nat) * pow2(pack_cost(dims) as nat) <= usize::MAX
}

/// Width and height of each image.
pub open spec fn texture_dims(textures: Seq<Image>) -> Seq<(int, int)> {
    textures.map_values(|t: Image| (t.width as int, t.height as int))
}

/// `n` is a power of two.
pub open spec fn is_power_of_two(n: int) -> bool {
    exists|k: nat| #[trigger] pow2(k) == n
}

proof fn lemma_pow2_mono(a: nat, b: nat)
    requires
        a <= b,
    ensures
        pow2(a) <= pow2(b),
{
    if a < b {
        lemma_pow2_strictly_increases(a, b);
    }
}

proof fn lemma_cover_log(n: int)
    ensures
        pow2(cover_log(n)) >= n,
    decreases n,
{
    if n <= 1 {
        lemma2_to64();
    } else {
        lemma_cover_log((n + 1) / 2);
        lemma_pow2_unfold(cover_log(n));
    }
}

proof fn lemma_pack_cost_prefix(dims: Seq<(int, int)>, i: int)
    requires
        0 <= i < dims.len(),
    ensures
        pack_cost(dims.take(i + 1)) == pack_cost(dims.take(i)) + 1 + cover_log(larger(dims[i].0, dims[i].1)),
        pack_cost(dims.take(i + 1)) <= pack_cost(dims),
        pack_cost(dims.take(i)) >= 0,
    decreases dims.len() - i,
{
    assert(dims.take(i + 1).drop_last() =~= dims.take(i));
    if i + 1 < dims.len() {
        lemma_pack_cost_prefix(dims, i + 1);
    } else {
        assert(dims.take(i + 1) =~= dims);
    }
    lemma_pack_cost_nonneg(dims.take(i));
}

proof fn lemma_pack_cost_nonneg(dims: Seq<(int, int)>)
    ensures
        pack_cost(dims) >= 0,
    decreases dims.len(),
{
    if dims.len() > 0 {
        lemma_pack_cost_nonneg(dims.drop_last());
    }
}

/// The exponent of the largest texture side, rounded up to a power of two.
pub open spec fn max_cover(dims: Seq<(int, int)>) -> nat
    decreases dims.len(),
{
    if dims.len() == 0 {
        0
    } else {
        let m = max_cover(dims.drop_last());
        let l = cover_log(larger(dims.last().0, dims.last().1));
        if m < l { l } else { m }
    }
}

/// The exponent of an atlas side that holds textures of these sizes: twice
/// the largest side, times the number of textures, rounded up to powers of
/// two.
pub open spec fn atlas_log(dims: Seq<(int, int)>) -> nat {
    max_cover(dims) + 1 + cover_log(dims.len() as int)
}

/// The textures can be packed without the atlas outgrowing `i32`
/// coordinates or a `usize` count of pixels: none is empty, and an atlas of
/// side `2^atlas_log` stays within both.
pub open spec fn fits_atlas(dims: Seq<(int, int)>) -> bool {
    &&& forall|i: int| 0 <= i < dims.len() ==> #[trigger] dims[i].0 > 0 && dims[i].1 > 0
    &&& atlas_log(dims) <= 30
    &&& pow2(atlas_log(dims)) * pow2(atlas_log(dims)) <= usize::MAX
}

proof fn lemma_max_cover(dims: Seq<(int, int)>, i: int)
    requires
        0 <= i < dims.len(),
    ensures
        cover_log(larger(dims[i].0, dims[i].1)) <= max_cover(dims),
    decreases dims.len(),
{
    if i < dims.len() - 1 {
        lemma_max_cover(dims.drop_last(), i);
        assert(dims.drop_last()[i] == dims[i]);
    }
}

proof fn lemma_floor_ge(x: int, m: int, k: int)
    requires
        m > 0,
        x >= k * m,
    ensures
        x / m >= k,
{
    vstd::arithmetic::div_mod::lemma_fundamental_div_mod(x, m);
    let q = x / m;
    let r = x % m;
    assert(0 <= r < m);
    assert(q >= k) by (nonlinear_arith)
        requires
            x == m * q + r,
            0 <= r < m,
            x >= k * m,
            m > 0,
    ;
}

proof fn lemma_floor_lt(x: int, m: int, k: int)
    requires
        m > 0,
        x < k * m,
    ensures
        x / m < k,
{
    vstd::arithmetic::div_mod::lemma_fundamental_div_mod(x, m);
    let q = x / m;
    let r = x % m;
    assert(0 <= r < m);
    assert(q < k) by (nonlinear_arith)
        requires
            x == m * q + r,
            0 <= r,
            x < k * m,
            m > 0,
    ;
}

/// How many more textures of sides up to `m` a free rectangle surely takes:
/// it fits one while this is at least zero, and each texture cut from it
/// leaves a rectangle for which this is at most one less.
pub open spec fn room(t: (int, int, int, int), m: int) -> int {
    let a = (t.2 - t.0 - m) / m;
    let b = (t.3 - t.1 - m) / m;
    if a < b { a } else { b }
}

/// The bookkeeping of the argument that the atlas stops growing: once it
/// grew, `tr` is (while `tlive`) a free rectangle that was the lower half of
/// the atlas when it last doubled, and it has room left for at least as many
/// textures as the half had minus those placed since; once it is used up,
/// more textures were placed since than the half had room for.
pub open spec fn track_ok(
    a: SimpleAtlasAllocator,
    lg: nat,
    m: int,
    tr: (int, int, int, int),
    tlive: bool,
    since: int,
    placed: int,
) -> bool {
    lg >= 1 ==> {
        let q0 = (pow2((lg - 1) as nat) - m) / m;
        &&& 0 <= since <= placed
        &&& tlive ==> free_rects(a).count(tr) > 0 && room(tr, m) >= q0 - (placed - since)
        &&& !tlive ==> q0 - (placed - since) < 0
    }
}

proof fn lemma_track_after_grow(a: SimpleAtlasAllocator, lg: nat, m: int, placed: int)
    requires
        m > 0,
        placed >= 0,
        free_rects(a).count((0int, pow2(lg) as int, pow2(lg + 1) as int, pow2(lg + 1) as int)) > 0,
        pow2(lg + 1) == 2 * pow2(lg),
    ensures
        track_ok(a, lg + 1, m, (0int, pow2(lg) as int, pow2(lg + 1) as int, pow2(lg + 1) as int), true, placed, placed),
{
    let p = pow2(lg) as int;
    vstd::arithmetic::div_mod::lemma_div_is_ordered(p - m, 2 * p - m, m);
    assert(((lg + 1) - 1) as nat == lg);
}

proof fn lemma_track_after_allocate(
    a0: SimpleAtlasAllocator,
    a1: SimpleAtlasAllocator,
    lg: nat,
    m: int,
    tr: (int, int, int, int),
    tlive: bool,
    since: int,
    placed: int,
    c: (int, int, int, int),
    rect: (int, int, int, int),
    w: int,
    h: int,
) -> (res: ((int, int, int, int), bool))
    requires
        m > 0,
        0 < w <= m,
        0 < h <= m,
        track_ok(a0, lg, m, tr, tlive, since, placed),
        free_rects(a0).count(c) > 0,
        fits(c, w, h),
        rect == (c.0, c.1, c.0 + w, c.1 + h),
        allocate_rest(a0, a1, c, rect),
    ensures
        track_ok(a1, lg, m, res.0, res.1, since, placed + 1),
{
    if lg >= 1 {
        let q0 = (pow2((lg - 1) as nat) - m) / m;
        if tlive && c == tr {
            let a = (tr.2 - tr.0 - m) / m;
            let b = (tr.3 - tr.1 - m) / m;
            if c.2 - c.0 == w && c.3 - c.1 == h {
                lemma_floor_lt(w - m, m, 1);
                return (tr, false);
            } else if c.2 > rect.2 && gained(a0, a1, c, (rect.2, c.1, c.2, c.3)) > 0 {
                let t2 = (rect.2, c.1, c.2, c.3);
                let x = tr.2 - tr.0 - m;
                vstd::arithmetic::div_mod::lemma_fundamental_div_mod(x, m);
                assert(x % m >= 0);
                assert(x - w >= (a - 1) * m) by (nonlinear_arith)
                    requires
                        x == m * a + x % m,
                        x % m >= 0,
                        w <= m,
                ;
                lemma_floor_ge(t2.2 - t2.0 - m, m, a - 1);
                assert(t2 != c);
                return (t2, true);
            } else {
                let t2 = (c.0, rect.3, c.2, c.3);
                let x = tr.3 - tr.1 - m;
                vstd::arithmetic::div_mod::lemma_fundamental_div_mod(x, m);
                assert(x % m >= 0);
                assert(x - h >= (b - 1) * m) by (nonlinear_arith)
                    requires
                        x == m * b + x % m,
                        x % m >= 0,
                        h <= m,
                ;
                lemma_floor_ge(t2.3 - t2.1 - m, m, b - 1);
                assert(t2 != c);
                return (t2, true);
            }
        } else {
            if tlive {
                assert(gained(a0, a1, c, tr) >= 0);
            }
            return (tr, tlive);
        }
    }
    (tr, tlive)
}

proof fn lemma_track_failure(a: SimpleAtlasAllocator, lg: nat, m: int, tr: (int, int, int, int), tlive: bool, since: int, placed: int, w: int, h: int)
    requires
        m > 0,
        lg >= 1,
        0 < w <= m,
        0 < h <= m,
        track_ok(a, lg, m, tr, tlive, since, placed),
        forall|c: (int, int, int, int)| #[trigger] free_rects(a).count(c) > 0 ==> !fits(c, w, h),
    ensures
        (pow2((lg - 1) as nat) - m) / m < placed,
{
    if tlive {
        assert(free_rects(a).count(tr) > 0);
        assert(!fits(tr, w, h));
        if tr.2 - tr.0 < w {
            lemma_floor_lt(tr.2 - tr.0 - m, m, 0);
        } else {
            lemma_floor_lt(tr.3 - tr.1 - m, m, 0);
        }
    }
}

/// Where the atlas doubled from a side of at least `2^atlas_log / 2`, the
/// textures placed before number at least as many as there are textures.
proof fn lemma_too_many(dims: Seq<(int, int)>, lg: nat, m: int)
    requires
        m == pow2(max_cover(dims)) as int,
        lg >= atlas_log(dims),
    ensures
        (pow2((lg - 1) as nat) - m) / m >= dims.len() - 1,
{
    let mc = max_cover(dims);
    let cl = cover_log(dims.len() as int);
    vstd::arithmetic::power2::lemma_pow2_pos(mc);
    lemma_cover_log(dims.len() as int);
    vstd::arithmetic::power2::lemma_pow2_adds(mc, cl);
    lemma_pow2_mono(mc + cl, (lg - 1) as nat);
    let n = dims.len() as int;
    let pc = pow2(cl) as int;
    assert(m * pc >= m * n) by (nonlinear_arith)
        requires
            m > 0,
            pc >= n,
    ;
    assert(pow2((lg - 1) as nat) - m >= (n - 1) * m) by (nonlinear_arith)
        requires
            pow2((lg - 1) as nat) >= m * pc,
            m * pc >= m * n,
    ;
    lemma_floor_ge(pow2((lg - 1) as nat) - m, m, n - 1);
}

/// The rectangle of a place the allocator handed out.
pub open spec fn rect_of(r: (i32, i32, i32, i32)) -> (int, int, int, int) {
    (r.0 as int, r.1 as int, r.2 as int, r.3 as int)
}

/// The free rectangles of `a` are counted once each, are not empty, lie in
/// its atlas, share no pixel with each other or with the places in `rects`.
spec fn free_ok(a: SimpleAtlasAllocator, rects: Seq<(i32, i32, i32, i32)>) -> bool {
    &&& forall|x: (int, int, int, int)| #[trigger] free_rects(a).count(x) <= 1
    &&& forall|x: (int, int, int, int)| #[trigger] free_rects(a).count(x) > 0
        ==> nonempty(x) && inside(x, (0, 0, allocator_size(a).0, allocator_size(a).1))
    &&& forall|x: (int, int, int, int), y: (int, int, int, int)|
        #[trigger] free_rects(a).count(x) > 0 && #[trigger] free_rects(a).count(y) > 0 && x != y ==> disjoint(x, y)
    &&& forall|x: (int, int, int, int), k: int| #[trigger] free_rects(a).count(x) > 0 && 0 <= k < rects.len()
        ==> disjoint(x, rect_of(#[trigger] rects[k]))
}

/// The places in `rects` lie in the atlas and share no pixel.
spec fn rects_ok(rects: Seq<(i32, i32, i32, i32)>, w: int, h: int) -> bool {
    &&& forall|k: int| 0 <= k < rects.len() ==> {
        let r = #[trigger] rects[k];
        0 <= r.0 && 0 <= r.1 && r.2 <= w && r.3 <= h
    }
    &&& forall|j: int, k: int| 0 <= j < rects.len() && 0 <= k < rects.len() && j != k ==> disjoint(rect_of(#[trigger] rects[j]), rect_of(#[trigger] rects[k]))
}

proof fn lemma_free_ok_places(a: SimpleAtlasAllocator, rects: Seq<(i32, i32, i32, i32)>)
    requires
        free_ok(a, rects),
        allocator_size(a).0 <= i32::MAX,
        allocator_size(a).1 <= i32::MAX,
    ensures
        free_rects_placed(a),
{
}

proof fn lemma_free_after_grow(a0: SimpleAtlasAllocator, a1: SimpleAtlasAllocator, rects: Seq<(i32, i32, i32, i32)>)
    requires
        free_ok(a0, rects),
        rects_ok(rects, allocator_size(a0).0, allocator_size(a0).1),
        allocator_size(a1).0 >= allocator_size(a0).0,
        allocator_size(a1).1 >= allocator_size(a0).1,
        forall|r: (int, int, int, int)| free_rects(a0).count(r) <= #[trigger] free_rects(a1).count(r) <= free_rects(a0).count(r) + 1,
        forall|r: (int, int, int, int)| #[trigger] free_rects(a1).count(r) > free_rects(a0).count(r) ==> {
            &&& nonempty(r)
            &&& inside(r, (0, 0, allocator_size(a1).0, allocator_size(a1).1))
            &&& disjoint(r, (0, 0, allocator_size(a0).0, allocator_size(a0).1))
        },
        forall|r1: (int, int, int, int), r2: (int, int, int, int)|
            #[trigger] free_rects(a1).count(r1) > free_rects(a0).count(r1)
            && #[trigger] free_rects(a1).count(r2) > free_rects(a0).count(r2) && r1 != r2 ==> disjoint(r1, r2),
    ensures
        free_ok(a1, rects),
        rects_ok(rects, allocator_size(a1).0, allocator_size(a1).1),
{
    let f0 = free_rects(a0);
    let f1 = free_rects(a1);
    assert forall|x: (int, int, int, int)| #[trigger] f1.count(x) <= 1 by {
        if f1.count(x) > f0.count(x) && f0.count(x) > 0 {
            assert(inside(x, (0, 0, allocator_size(a0).0, allocator_size(a0).1)));
        }
    }
    assert forall|x: (int, int, int, int), y: (int, int, int, int)|
        #[trigger] f1.count(x) > 0 && #[trigger] f1.count(y) > 0 && x != y implies disjoint(x, y) by {
        if f1.count(x) > f0.count(x) && f1.count(y) <= f0.count(y) {
            assert(inside(y, (0, 0, allocator_size(a0).0, allocator_size(a0).1)));
        } else if f1.count(y) > f0.count(y) && f1.count(x) <= f0.count(x) {
            assert(inside(x, (0, 0, allocator_size(a0).0, allocator_size(a0).1)));
        }
    }
    assert forall|x: (int, int, int, int), k: int| #[trigger] f1.count(x) > 0 && 0 <= k < rects.len()
        implies disjoint(x, rect_of(#[trigger] rects[k])) by {
        if f1.count(x) > f0.count(x) {
            assert(rects[k].2 <= allocator_size(a0).0 && rects[k].3 <= allocator_size(a0).1);
        }
    }
}

proof fn lemma_free_after_allocate(
    a0: SimpleAtlasAllocator,
    a1: SimpleAtlasAllocator,
    rects: Seq<(i32, i32, i32, i32)>,
    c: (int, int, int, int),
    rect: (i32, i32, i32, i32),
)
    requires
        free_ok(a0, rects),
        rects_ok(rects, allocator_size(a0).0, allocator_size(a0).1),
        allocator_size(a1) == allocator_size(a0),
        free_rects(a0).count(c) > 0,
        inside(rect_of(rect), c),
        nonempty(rect_of(rect)),
        allocate_rest(a0, a1, c, rect_of(rect)),
    ensures
        free_ok(a1, rects.push(rect)),
        rects_ok(rects.push(rect), allocator_size(a1).0, allocator_size(a1).1),
{
    let f0 = free_rects(a0);
    let f1 = free_rects(a1);
    let rs = rects.push(rect);
    assert(inside(c, (0, 0, allocator_size(a0).0, allocator_size(a0).1)));
    assert forall|x: (int, int, int, int)| #[trigger] f1.count(x) > 0 implies gained(a0, a1, c, x) > 0 || (x != c && f0.count(x) > 0) by {
        if gained(a0, a1, c, x) <= 0 {
        }
    }
    assert forall|x: (int, int, int, int)| #[trigger] f1.count(x) <= 1 by {
        if gained(a0, a1, c, x) > 0 && f0.count(x) > 0 && x != c {
            assert(disjoint(x, c));
        }
        if x == c && gained(a0, a1, c, x) > 0 {
            assert(disjoint(x, rect_of(rect)));
        }
    }
    assert forall|x: (int, int, int, int)| #[trigger] f1.count(x) > 0
        implies nonempty(x) && inside(x, (0, 0, allocator_size(a1).0, allocator_size(a1).1)) by {
        assert(gained(a0, a1, c, x) > 0 || (x != c && f0.count(x) > 0));
    }
    assert forall|x: (int, int, int, int), y: (int, int, int, int)|
        #[trigger] f1.count(x) > 0 && #[trigger] f1.count(y) > 0 && x != y implies disjoint(x, y) by {
        assert(gained(a0, a1, c, x) > 0 || (x != c && f0.count(x) > 0));
        assert(gained(a0, a1, c, y) > 0 || (y != c && f0.count(y) > 0));
        if gained(a0, a1, c, x) > 0 && gained(a0, a1, c, y) <= 0 {
            assert(disjoint(y, c));
        } else if gained(a0, a1, c, y) > 0 && gained(a0, a1, c, x) <= 0 {
            assert(disjoint(x, c));
        }
    }
    assert forall|x: (int, int, int, int), k: int| #[trigger] f1.count(x) > 0 && 0 <= k < rs.len()
        implies disjoint(x, rect_of(#[trigger] rs[k])) by {
        assert(gained(a0, a1, c, x) > 0 || (x != c && f0.count(x) > 0));
        if k < rects.len() {
            assert(rs[k] == rects[k]);
            assert(disjoint(c, rect_of(rects[k])));
        } else if gained(a0, a1, c, x) <= 0 {
            assert(disjoint(x, c));
        }
    }
    assert forall|j: int, k: int| 0 <= j < rs.len() && 0 <= k < rs.len() && j != k
        implies disjoint(rect_of(#[trigger] rs[j]), rect_of(#[trigger] rs[k])) by {
        if j < rects.len() && k < rects.len() {
            assert(rs[j] == rects[j] && rs[k] == rects[k]);
        } else if j < rects.len() {
            assert(rs[j] == rects[j]);
            assert(disjoint(c, rect_of(rects[j])));
        } else {
            assert(rs[k] == rects[k]);
            assert(disjoint(c, rect_of(rects[k])));
        }
    }
    assert forall|k: int| 0 <= k < rs.len() implies {
        let r = #[trigger] rs[k];
        0 <= r.0 && 0 <= r.1 && r.2 <= allocator_size(a1).0 && r.3 <= allocator_size(a1).1
    } by {
        if k < rects.len() {
            assert(rs[k] == rects[k]);
        }
    }
}

/// Packs textures into one atlas image: each texture in turn gets a place
/// from the allocator, which starts at one pixel and doubles its width and
/// height whenever a texture does not fit; then the textures are copied to
/// their places. Fails on an empty texture, and where the atlas would outgrow
/// `i32` coordinates or the memory an image can take.
#[verifier::spinoff_prover]
pub fn pack_atlas(textures: &Vec<Image>) -> (r: Result<Atlas, AtlasError>)
    requires
        forall|i: int| 0 <= i < textures@.len() ==> #[trigger] textures@[i].valid(),
    ensures
        r matches Ok(atlas) ==> atlas_of(atlas, textures@),
        r matches Ok(atlas) ==> atlas.image.width == atlas.image.height && is_power_of_two(atlas.image.width as int),
        r is Ok ==> forall|i: int| 0 <= i < textures@.len() ==> #[trigger] textures@[i].width > 0 && textures@[i].height > 0,
        packable(texture_dims(textures@)) ==> r is Ok,
        fits_atlas(texture_dims(textures@)) ==> r is Ok,
        fits_atlas(texture_dims(textures@)) ==> (r matches Ok(atlas) && atlas.image.width <= pow2(atlas_log(texture_dims(textures@)))),
        textures@.len() == 0 ==> (r matches Ok(atlas) && atlas.image.width == 1 && atlas.image.height == 1),
{
    let ghost dims = texture_dims(textures@);
    let mut alloc = allocator_new(1, 1);
    let ghost mut lg: nat = 0;
    let mut rects: Vec<(i32, i32, i32, i32)> = Vec::new();
    let ghost mc: nat = max_cover(dims);
    let ghost m: int = pow2(mc) as int;
    let ghost mut tr: (int, int, int, int) = (0, 0, 0, 0);
    let ghost mut tlive: bool = false;
    let ghost mut since: int = 0;
    proof {
        lemma2_to64();
        assert(dims.take(0).len() == 0);
        vstd::arithmetic::power2::lemma_pow2_pos(mc);
    }
    let mut i: usize = 0;
    while i < textures.len()
        invariant
            0 <= i <= textures@.len(),
            dims == texture_dims(textures@),
            forall|j: int| 0 <= j < textures@.len() ==> #[trigger] textures@[j].valid(),
            rects@.len() == i,
            allocator_size(alloc) == (pow2(lg) as int, pow2(lg) as int),
            pow2(lg) <= i32::MAX,
            lg <= pack_cost(dims.take(i as int)),
            free_ok(alloc, rects@),
            rects_ok(rects@, pow2(lg) as int, pow2(lg) as int),
            mc == max_cover(dims),
            m == pow2(mc) as int,
            m > 0,
            track_ok(alloc, lg, m, tr, tlive, since, rects@.len() as int),
            fits_atlas(dims) ==> lg <= atlas_log(dims),
            forall|j: int| 0 <= j < i ==> #[trigger] textures@[j].width > 0 && textures@[j].height > 0,
            forall|j: int| 0 <= j < i ==> #[trigger] rects@[j].2 == rects@[j].0 + textures@[j].width && rects@[j].3 == rects@[j].1 + textures@[j].height,
        decreases textures@.len() - i,
    {
        let w = textures[i].width;
        let h = textures[i].height;
        proof {
            assert(dims[i as int] == (w as int, h as int));
        }
        if w == 0 || h == 0 {
            proof {
                if packable(dims) {
                    assert(dims[i as int].0 > 0 && dims[i as int].1 > 0);
                }
            }
            return Err(AtlasError::EmptyTexture);
        }
        let ghost l = cover_log(larger(w as int, h as int));
        proof {
            lemma_pack_cost_prefix(dims, i as int);
            lemma_cover_log(larger(w as int, h as int));
            lemma2_to64();
            if packable(dims) {
                lemma_pow2_mono(l, 29);
            }
            lemma_max_cover(dims, i as int);
            lemma_pow2_mono(l, mc);
            if fits_atlas(dims) {
                lemma_pow2_mono(mc, 29);
            }
        }
        if w > 0x7fff_ffffu32 || h > 0x7fff_ffffu32 {
            return Err(AtlasError::TooLarge);
        }
        let wi = w as i32;
        let hi = h as i32;
        let ghost k0 = lg;
        let ghost mut grew = false;
        loop
            invariant_except_break
                rects@.len() == i,
                free_ok(alloc, rects@),
                rects_ok(rects@, pow2(lg) as int, pow2(lg) as int),
                track_ok(alloc, lg, m, tr, tlive, since, rects@.len() as int),
                !grew ==> lg == k0,
                grew ==> lg >= 1 && free_rects(alloc).count((0int, pow2((lg - 1) as nat) as int, pow2(lg) as int, pow2(lg) as int)) > 0,
            invariant
                0 <= i < textures@.len(),
                dims == texture_dims(textures@),
                w == textures@[i as int].width,
                h == textures@[i as int].height,
                wi == w,
                hi == h,
                w > 0,
                h > 0,
                l == cover_log(larger(w as int, h as int)),
                pow2(l) >= larger(w as int, h as int),
                k0 <= pack_cost(dims.take(i as int)),
                pack_cost(dims.take(i + 1)) == pack_cost(dims.take(i as int)) + 1 + l,
                pack_cost(dims.take(i + 1)) <= pack_cost(dims),
                pack_cost(dims.take(i as int)) >= 0,
                allocator_size(alloc) == (pow2(lg) as int, pow2(lg) as int),
                pow2(lg) <= i32::MAX,
                lg <= k0 + 1 || lg <= l + 1,
                mc == max_cover(dims),
                m == pow2(mc) as int,
                m > 0,
                w <= m,
                h <= m,
                i < dims.len(),
                fits_atlas(dims) ==> lg <= atlas_log(dims),
                forall|j: int| 0 <= j < i ==> #[trigger] rects@[j].2 == rects@[j].0 + textures@[j].width && rects@[j].3 == rects@[j].1 + textures@[j].height,
            ensures
                rects@.len() == i + 1,
                free_ok(alloc, rects@),
                track_ok(alloc, lg, m, tr, tlive, since, rects@.len() as int),
                rects_ok(rects@, pow2(lg) as int, pow2(lg) as int),
                forall|j: int| 0 <= j <= i ==> #[trigger] rects@[j].2 == rects@[j].0 + textures@[j].width && rects@[j].3 == rects@[j].1 + textures@[j].height,
            decreases i32::MAX - allocator_size(alloc).0,
        {
            let ghost a0 = alloc;
            proof {
                lemma_free_ok_places(alloc, rects@);
            }
            match allocator_allocate(&mut alloc, wi, hi) {
                Some(rect) => {
                    proof {
                        let c = choose|c: (int, int, int, int)| {
                            &&& #[trigger] free_rects(a0).count(c) > 0
                            &&& fits(c, w as int, h as int)
                            &&& rect.0 == c.0 && rect.1 == c.1 && rect.2 == c.0 + w && rect.3 == c.1 + h
                            &&& allocate_rest(a0, alloc, c, rect_of(rect))
                        };
                        lemma_free_after_allocate(a0, alloc, rects@, c, rect);
                        let res = lemma_track_after_allocate(a0, alloc, lg, m, tr, tlive, since, rects@.len() as int, c, rect_of(rect), w as int, h as int);
                        tr = res.0;
                        tlive = res.1;
                    }
                    let ghost before = rects@;
                    rects.push(rect);
                    proof {
                        assert forall|j: int| 0 <= j <= i implies #[trigger] rects@[j].2 == rects@[j].0 + textures@[j].width && rects@[j].3 == rects@[j].1 + textures@[j].height by {
                            if j < i {
                                assert(rects@[j] == before[j]);
                            }
                        }
                    }
                    break;
                },
                None => {
                    proof {
                        if grew {
                            let c0 = (0int, pow2((lg - 1) as nat) as int, pow2(lg) as int, pow2(lg) as int);
                            assert(free_rects(a0).count(c0) > 0);
                            assert(!fits(c0, w as int, h as int));
                            lemma_pow2_unfold(lg);
                            if lg - 1 >= l {
                                lemma_pow2_mono(l, (lg - 1) as nat);
                            }
                            assert(lg <= l);
                        }
                        if fits_atlas(dims) {
                            if lg >= 1 {
                                lemma_track_failure(a0, lg, m, tr, tlive, since, rects@.len() as int, w as int, h as int);
                                if lg >= atlas_log(dims) {
                                    lemma_too_many(dims, lg, m);
                                }
                            }
                            assert(lg < atlas_log(dims));
                        }
                    }
                    let (aw, ah) = allocator_size_of(&alloc);
                    if aw > 0x3fff_ffffi32 || ah > 0x3fff_ffffi32 {
                        proof {
                            lemma2_to64();
                            if packable(dims) {
                                assert(lg <= 29);
                                lemma_pow2_mono(lg, 29);
                            }
                        }
                        proof {
                            if fits_atlas(dims) {
                                lemma_pow2_mono(lg, 29);
                            }
                        }
                        return Err(AtlasError::TooLarge);
                    }
                    let ghost a1 = alloc;
                    proof {
                        vstd::arithmetic::power2::lemma_pow2_pos(lg);
                        lemma_pow2_unfold(lg + 1);
                    }
                    allocator_grow(&mut alloc, aw * 2, ah * 2);
                    proof {
                        lemma_free_after_grow(a1, alloc, rects@);
                        lemma_track_after_grow(alloc, lg, m, rects@.len() as int);
                        tr = (0int, pow2(lg) as int, pow2(lg + 1) as int, pow2(lg + 1) as int);
                        tlive = true;
                        since = rects@.len() as int;
                        lg = lg + 1;
                        grew = true;
                    }
                },
            }
        }
        i = i + 1;
    }
    proof {
        assert(dims.take(textures@.len() as int) =~= dims);
        lemma_pack_cost_nonneg(dims);
    }
    let (aw, ah) = allocator_size_of(&alloc);
    proof {
        if packable(dims) {
            lemma_pow2_mono(lg, pack_cost(dims) as nat);
            let p = pow2(lg) as int;
            let q = pow2(pack_cost(dims) as nat) as int;
            assert(p * p <= q * q) by (nonlinear_arith)
                requires
                    0 <= p <= q,
            ;
        }
        if fits_atlas(dims) {
            lemma_pow2_mono(lg, atlas_log(dims));
            let p = pow2(lg) as int;
            let q = pow2(atlas_log(dims)) as int;
            assert(p * p <= q * q) by (nonlinear_arith)
                requires
                    0 <= p <= q,
            ;
        }
        if textures@.len() == 0 {
            assert(dims.len() == 0);
            assert(pack_cost(dims) == 0);
            assert(lg == 0);
            lemma2_to64();
            assert(aw == 1 && ah == 1);
            assert((aw as usize) * (ah as usize) == 1) by (nonlinear_arith)
                requires
                    aw == 1,
                    ah == 1,
            ;
        }
    }
    let area = (aw as usize).checked_mul(ah as usize);
    let mut image = match area {
        Some(_) => Image::new(aw as u32, ah as u32),
        None => {
            return Err(AtlasError::TooLarge);
        },
    };
    let mut slices: Vec<AtlasSlice> = Vec::new();
    let mut k: usize = 0;
    proof {
        assert forall|x: int, y: int| 0 <= x < aw && 0 <= y < ah implies #[trigger] image.pixel(x, y) == [0u8, 0u8, 0u8, 0u8] by {
            crate::image::lemma_px_bounds(aw as int, ah as int, x, y);
        }
    }
    while k < textures.len()
        invariant
            0 <= k <= textures@.len(),
            rects@.len() == textures@.len(),
            image.valid(),
            image.width == aw,
            image.height == ah,
            aw == pow2(lg),
            ah == pow2(lg),
            slices@.len() == k,
            forall|j: int| 0 <= j < textures@.len() ==> #[trigger] textures@[j].valid(),
            rects_ok(rects@, aw as int, ah as int),
            forall|j: int| 0 <= j < textures@.len() ==> #[trigger] rects@[j].2 == rects@[j].0 + textures@[j].width && rects@[j].3 == rects@[j].1 + textures@[j].height,
            forall|j: int| 0 <= j < k ==> #[trigger] slices@[j] == (AtlasSlice {
                x: rects@[j].0 as u32,
                y: rects@[j].1 as u32,
                width: textures@[j].width,
                height: textures@[j].height,
            }),
            forall|j: int, x: int, y: int| 0 <= j < k && 0 <= x < textures@[j].width && 0 <= y < textures@[j].height
                ==> #[trigger] image.pixel(slices@[j].x + x, slices@[j].y + y) == textures@[j].pixel(x, y),
            forall|x: int, y: int| 0 <= x < aw && 0 <= y < ah && (forall|j: int| 0 <= j < k ==> !in_slice(#[trigger] slices@[j], x, y))
                ==> #[trigger] image.pixel(x, y) == [0u8, 0u8, 0u8, 0u8],
        decreases textures@.len() - k,
    {
        let r = rects[k];
        proof {
            assert(0 <= r.0 && 0 <= r.1 && r.2 <= aw && r.3 <= ah);
        }
        let s = AtlasSlice { x: r.0 as u32, y: r.1 as u32, width: textures[k].width, height: textures[k].height };
        let ghost old_image = image;
        let ghost old_slices = slices@;
        let res = image.copy_from(&textures[k], s.x, s.y);
        match res {
            Ok(()) => {},
            Err(_) => {
                return Err(AtlasError::TooLarge);
            },
        }
        slices.push(s);
        proof {
            assert forall|j: int, x: int, y: int| 0 <= j < k + 1 && 0 <= x < textures@[j].width && 0 <= y < textures@[j].height
                implies #[trigger] image.pixel(slices@[j].x + x, slices@[j].y + y) == textures@[j].pixel(x, y) by {
                if j < k {
                    assert(disjoint(rect_of(rects@[j]), rect_of(rects@[k as int])));
                    assert(old_image.pixel(slices@[j].x + x, slices@[j].y + y) == textures@[j].pixel(x, y));
                }
            }
            assert forall|x: int, y: int| 0 <= x < aw && 0 <= y < ah && (forall|j: int| 0 <= j < k + 1 ==> !in_slice(#[trigger] slices@[j], x, y))
                implies #[trigger] image.pixel(x, y) == [0u8, 0u8, 0u8, 0u8] by {
                assert(!in_slice(slices@[k as int], x, y));
                assert forall|j: int| 0 <= j < k implies !in_slice(#[trigger] old_slices[j], x, y) by {
                    assert(old_slices[j] == slices@[j]);
                    assert(!in_slice(slices@[j], x, y));
                }
                assert(old_image.pixel(x, y) == [0u8, 0u8, 0u8, 0u8]);
            }
        }
        k = k + 1;
    }
    let atlas = Atlas { image, slices };
    proof {
        assert forall|i: int, j: int| 0 <= i < textures@.len() && 0 <= j < textures@.len() && i != j implies disjoint(
            slice_rect(#[trigger] atlas.slices@[i]),
            slice_rect(#[trigger] atlas.slices@[j]),
        ) by {
            assert(disjoint(rect_of(rects@[i]), rect_of(rects@[j])));
        }
        assert forall|i: int| 0 <= i < textures@.len() implies {
            let s = #[trigger] atlas.slices@[i];
            &&& s.width == textures@[i].width
            &&& s.height == textures@[i].height
            &&& s.x + s.width <= atlas.image.width
            &&& s.y + s.height <= atlas.image.height
        } by {
            let r = rects@[i];
            assert(0 <= r.0 && 0 <= r.1 && r.2 <= aw && r.3 <= ah);
        }
        assert(pow2(lg) == aw);
        assert(atlas.image.valid());
        assert(atlas.slices@.len() == textures@.len());
        assert(forall|i: int, x: int, y: int| 0 <= i < textures@.len() && 0 <= x < textures@[i].width && 0 <= y < textures@[i].height
            ==> #[trigger] atlas.image.pixel(atlas.slices@[i].x + x, atlas.slices@[i].y + y) == textures@[i].pixel(x, y));
        assert(forall|x: int, y: int| 0 <= x < atlas.image.width && 0 <= y < atlas.image.height && (forall|i: int| 0 <= i < textures@.len() ==> !in_slice(#[trigger] atlas.slices@[i], x, y))
            ==> #[trigger] atlas.image.pixel(x, y) == [0u8, 0u8, 0u8, 0u8]);
    }
    Ok(atlas)
}

/// The distinct names of a list, in the order in which they first appear.
pub open spec fn first_seen(names: Seq<Seq<char>>) -> Seq<Seq<char>>
    decreases names.len(),
{
    if names.len() == 0 {
        Seq::empty()
    } else {
        let prev = first_seen(names.drop_last());
        if prev.contains(names.last()) {
            prev
        } else {
            prev.push(names.last())
        }
    }
}

/// No name appears twice among the distinct names of a list, and each name
/// of the list is among them.
pub proof fn lemma_first_seen(names: Seq<Seq<char>>)
    ensures
        first_seen(names).no_duplicates(),
        forall|i: int| 0 <= i < names.len() ==> first_seen(names).contains(#[trigger] names[i]),
    decreases names.len(),
{
    if names.len() > 0 {
        lemma_first_seen(names.drop_last());
        assert forall|i: int| 0 <= i < names.len() implies first_seen(names).contains(#[trigger] names[i]) by {
            if i < names.len() - 1 {
                assert(names.drop_last()[i] == names[i]);
                let prev = first_seen(names.drop_last());
                let j = choose|j: int| 0 <= j < prev.len() && prev[j] == names[i];
                if !prev.contains(names.last()) {
                    assert(prev.push(names.last())[j] == names[i]);
                }
            } else {
                let prev = first_seen(names.drop_last());
                if !prev.contains(names.last()) {
                    assert(prev.push(names.last())[prev.len() as int] == names.last());
                }
            }
        }
    }
}

/// Two tiles get the same atlas texture exactly when they name the same
/// texture string: each distinct string is loaded once.
pub proof fn lemma_same_texture_same_id(names: Seq<String>, unique: Seq<String>, ids: Seq<usize>, i: int, j: int)
    requires
        names_view(unique) == first_seen(names_view(names)),
        ids.len() == names.len(),
        forall|k: int| 0 <= k < names.len() ==> #[trigger] ids[k] < unique.len() && unique[ids[k] as int]@ == names[k]@,
        0 <= i < names.len(),
        0 <= j < names.len(),
    ensures
        ids[i] == ids[j] <==> names[i]@ == names[j]@,
{
    lemma_first_seen(names_view(names));
    let u = names_view(unique);
    assert(u[ids[i] as int] == names[i]@);
    assert(u[ids[j] as int] == names[j]@);
}

/// The names of a list of strings.
pub open spec fn names_view(names: Seq<String>) -> Seq<Seq<char>> {
    names.map_values(|s: String| s@)
}

/// Gives each distinct texture name an id, in order of first appearance, and
/// each name of the list the id of its texture: `unique[ids[i]]` is
/// `names[i]`.
pub fn assign_texture_ids(names: &Vec<String>) -> (r: (Vec<String>, Vec<usize>))
    ensures
        names_view(r.0@) == first_seen(names_view(names@)),
        r.1@.len() == names@.len(),
        forall|i: int| 0 <= i < names@.len() ==> #[trigger] r.1@[i] < r.0@.len() && r.0@[r.1@[i] as int]@ == names@[i]@,
{
    let ghost all = names_view(names@);
    let mut ids_of: StringHashMap<usize> = StringHashMap::new();
    let mut unique: Vec<String> = Vec::new();
    let mut ids: Vec<usize> = Vec::new();
    let mut i: usize = 0;
    while i < names.len()
        invariant
            0 <= i <= names@.len(),
            all == names_view(names@),
            names_view(unique@) == first_seen(all.take(i as int)),
            ids@.len() == i,
            forall|j: int| 0 <= j < i ==> #[trigger] ids@[j] < unique@.len() && unique@[ids@[j] as int]@ == names@[j]@,
            forall|k: Seq<char>| #[trigger] ids_of@.contains_key(k) ==> ids_of@[k] < unique@.len() && unique@[ids_of@[k] as int]@ == k,
            forall|j: int| 0 <= j < unique@.len() ==> #[trigger] ids_of@.contains_key(unique@[j]@),
            unique@.len() <= i,
        decreases names@.len() - i,
    {
        let name = &names[i];
        let ghost prev = all.take(i as int);
        proof {
            assert(all.take(i + 1).drop_last() =~= prev);
            assert(all.take(i + 1).last() == name@);
        }
        match ids_of.get(name.as_str()) {
            Some(id) => {
                let id = *id;
                ids.push(id);
                proof {
                    assert(names_view(unique@).contains(name@)) by {
                        assert(names_view(unique@)[id as int] == name@);
                    }
                }
            },
            None => {
                let id = unique.len();
                proof {
                    if names_view(unique@).contains(name@) {
                        let j = choose|j: int| 0 <= j < unique@.len() && #[trigger] names_view(unique@)[j] == name@;
                        assert(ids_of@.contains_key(unique@[j]@));
                    }
                }
                ids_of.insert(name.clone(), id);
                unique.push(name.clone());
                ids.push(id);
                proof {
                    assert(names_view(unique@) =~= first_seen(all.take(i + 1)));
                }
            },
        }
        i = i + 1;
    }
    proof {
        assert(all.take(names@.len() as int) =~= all);
    }
    (unique, ids)
}

/// The atlas of the textures that node tiles use, and the id of each tile's
/// texture in it.
pub struct TextureAtlas {
    pub atlas: Atlas,
    pub tile_ids: Vec<usize>,
}

/// `textures` are images that `texture_string` can give for `names`, one
/// for each.
pub open spec fn loaded_all(v: MediaView, names: Seq<Seq<char>>, textures: Seq<Image>) -> bool {
    &&& textures.len() == names.len()
    &&& forall|i: int| 0 <= i < names.len() ==> #[trigger] loaded_as(v, names[i], textures[i])
}

/// The sizes of the images that texture strings stand for.
pub open spec fn string_sizes(v: MediaView, names: Seq<Seq<char>>) -> Seq<(int, int)> {
    names.map_values(|n: Seq<char>| (string_dims(v, n).0 as int, string_dims(v, n).1 as int))
}

/// Builds the atlas for the textures that the tiles name, in order: each
/// distinct texture string is loaded once, in order of first appearance, and
/// gets the slice of its id; each tile gets the id of its texture.
pub fn create_atlas(media: &MediaMgr, tile_textures: &Vec<String>) -> (r: Result<TextureAtlas, AtlasError>)
    ensures
        tile_textures@.len() == 0 ==> (r matches Ok(t) && t.atlas.image.width == 1 && t.atlas.image.height == 1),
        packable(string_sizes(media@, first_seen(names_view(tile_textures@)))) ==> r is Ok,
        fits_atlas(string_sizes(media@, first_seen(names_view(tile_textures@)))) ==> (r matches Ok(t)
            && t.atlas.image.width <= pow2(atlas_log(string_sizes(media@, first_seen(names_view(tile_textures@)))))),
        r matches Ok(t) ==> t.atlas.image.width == t.atlas.image.height && is_power_of_two(t.atlas.image.width as int),
        r matches Ok(t) ==> {
            &&& exists|textures: Seq<Image>| #[trigger] loaded_all(media@, first_seen(names_view(tile_textures@)), textures)
                && atlas_of(t.atlas, textures)
            &&& t.tile_ids@.len() == tile_textures@.len()
            &&& forall|i: int| 0 <= i < tile_textures@.len() ==> #[trigger] t.tile_ids@[i] < t.atlas.slices@.len()
                && first_seen(names_view(tile_textures@))[t.tile_ids@[i] as int] == tile_textures@[i]@
        },
{
    let (unique, tile_ids) = assign_texture_ids(tile_textures);
    let mut textures: Vec<Image> = Vec::new();
    let mut i: usize = 0;
    while i < unique.len()
        invariant
            0 <= i <= unique@.len(),
            textures@.len() == i,
            forall|j: int| 0 <= j < i ==> #[trigger] loaded_as(media@, unique@[j]@, textures@[j]),
        decreases unique@.len() - i,
    {
        textures.push(media.texture_string(unique[i].as_str()));
        i = i + 1;
    }
    proof {
        assert forall|j: int| 0 <= j < textures@.len() implies #[trigger] textures@[j].valid() by {
            assert(loaded_as(media@, unique@[j]@, textures@[j]));
        }
    }
    proof {
        if tile_textures@.len() == 0 {
            assert(names_view(tile_textures@) =~= Seq::<Seq<char>>::empty());
            assert(names_view(unique@).len() == 0);
        }
        assert(names_view(unique@).len() == unique@.len());
        assert forall|j: int| 0 <= j < textures@.len() implies #[trigger] texture_dims(textures@)[j] == string_sizes(media@, names_view(unique@))[j] by {
            assert(loaded_as(media@, unique@[j]@, textures@[j]));
            assert(names_view(unique@)[j] == unique@[j]@);
        }
        assert(texture_dims(textures@) =~= string_sizes(media@, first_seen(names_view(tile_textures@))));
    }
    let atlas = match pack_atlas(&textures) {
        Ok(a) => a,
        Err(e) => {
            return Err(e);
        },
    };
    proof {
        assert(names_view(unique@).len() == unique@.len());
        assert forall|j: int| 0 <= j < names_view(unique@).len() implies #[trigger] loaded_as(media@, names_view(unique@)[j], textures@[j]) by {
            assert(loaded_as(media@, unique@[j]@, textures@[j]));
        }
        assert(loaded_all(media@, first_seen(names_view(tile_textures@)), textures@));
        assert forall|i: int| 0 <= i < tile_textures@.len() implies #[trigger] tile_ids@[i] < atlas.slices@.len()
            && first_seen(names_view(tile_textures@))[tile_ids@[i] as int] == tile_textures@[i]@ by {
            assert(names_view(unique@)[tile_ids@[i] as int] == unique@[tile_ids@[i] as int]@);
        }
    }
    Ok(TextureAtlas { atlas, tile_ids })
}

} // verus!
