//! Map block positions, the six face directions, and node indices inside a
//! block.

use vstd::prelude::*;

verus! {

/// The position of a map block, in block coordinates.
#[derive(Clone, Copy, Debug, PartialEq, Eq, Structural)]
pub struct BlockPos {
    pub x: i16,
    pub y: i16,
    pub z: i16,
}

/// Offset along the x axis of face `f`: +y, -y, +x, -x, +z, -z.
pub open spec fn face_dx(f: int) -> int {
    if f == 2 { 1 } else if f == 3 { -1 } else { 0 }
}

/// Offset along the y axis of face `f`.
pub open spec fn face_dy(f: int) -> int {
    if f == 0 { 1 } else if f == 1 { -1 } else { 0 }
}

/// Offset along the z axis of face `f`.
pub open spec fn face_dz(f: int) -> int {
    if f == 4 { 1 } else if f == 5 { -1 } else { 0 }
}

/// No coordinate of `p` is at the end of the `i16` range, so that all six
/// neighbours of `p` exist.
pub open spec fn is_interior(p: BlockPos) -> bool {
    &&& i16::MIN < p.x < i16::MAX
    &&& i16::MIN < p.y < i16::MAX
    &&& i16::MIN < p.z < i16::MAX
}

/// The block next to `p` through face `f`.
pub open spec fn neighbor(p: BlockPos, f: int) -> BlockPos {
    BlockPos {
        x: (p.x + face_dx(f)) as i16,
        y: (p.y + face_dy(f)) as i16,
        z: (p.z + face_dz(f)) as i16,
    }
}

/// The face opposite to face `f`.
pub open spec fn opposite(f: int) -> int {
    if f % 2 == 0 { f + 1 } else { f - 1 }
}

/// The direction of face `f`: +y, -y, +x, -x, +z, -z.
pub fn face_dir(f: usize) -> (d: (i16, i16, i16))
    requires
        f < 6,
    ensures
        d.0 == face_dx(f as int),
        d.1 == face_dy(f as int),
        d.2 == face_dz(f as int),
{
    if f == 0 {
        (0, 1, 0)
    } else if f == 1 {
        (0, -1, 0)
    } else if f == 2 {
        (1, 0, 0)
    } else if f == 3 {
        (-1, 0, 0)
    } else if f == 4 {
        (0, 0, 1)
    } else {
        (0, 0, -1)
    }
}

/// The face opposite to `f`, computed by flipping the
/// lowest bit.
pub fn opposite_face(f: usize) -> (r: usize)
    requires
        f < 6,
    ensures
        r == opposite(f as int),
        r < 6,
{
    let r = f ^ 1;
    assert(f < 6 ==> (f ^ 1usize) == (if f % 2 == 0 { f + 1 } else { f - 1 })) by (bit_vector);
    r
}

/// Walking through a face and then through the opposite face leads back:
/// the opposite of face `f` points the other way.
pub proof fn lemma_opposite_face(f: int)
    requires
        0 <= f < 6,
    ensures
        0 <= opposite(f) < 6,
        opposite(opposite(f)) == f,
        face_dx(opposite(f)) == -face_dx(f),
        face_dy(opposite(f)) == -face_dy(f),
        face_dz(opposite(f)) == -face_dz(f),
{
}

/// The neighbour of an interior block through the opposite face of `f`,
/// taken from its neighbour through `f`, is the block itself.
pub proof fn lemma_neighbor_back(p: BlockPos, f: int)
    requires
        is_interior(p),
        0 <= f < 6,
    ensures
        neighbor(neighbor(p, f), opposite(f)) == p,
{
    lemma_opposite_face(f);
}

/// The six neighbours of an interior block are pairwise distinct and differ
/// from the block.
pub proof fn lemma_neighbors_distinct(p: BlockPos, f: int, g: int)
    requires
        is_interior(p),
        0 <= f < 6,
        0 <= g < 6,
    ensures
        neighbor(p, f) != p,
        f != g ==> neighbor(p, f) != neighbor(p, g),
{
}

impl BlockPos {
    /// The neighbour through face `f`.
    pub fn neighbor(&self, f: usize) -> (n: BlockPos)
        requires
            is_interior(*self),
            f < 6,
        ensures
            n == neighbor(*self, f as int),
    {
        let d = face_dir(f);
        BlockPos { x: self.x + d.0, y: self.y + d.1, z: self.z + d.2 }
    }

    /// A 64-bit key that identifies the position.
    pub fn key(&self) -> (k: u64)
        ensures
            k == pos_key(*self),
    {
        ((self.x as u16) as u64) << 32u64 | ((self.y as u16) as u64) << 16u64 | ((self.z as u16) as u64)
    }

    /// The position that a key identifies.
    pub fn from_key(k: u64) -> (p: BlockPos)
        ensures
            p == key_pos(k),
    {
        BlockPos {
            x: ((k >> 32u64) as u16) as i16,
            y: ((k >> 16u64) as u16) as i16,
            z: (k as u16) as i16,
        }
    }
}

/// The key of a position: the three coordinates' bits side by side.
pub open spec fn pos_key(p: BlockPos) -> u64 {
    ((p.x as u16) as u64) << 32u64 | ((p.y as u16) as u64) << 16u64 | ((p.z as u16) as u64)
}

/// The position of a key.
pub open spec fn key_pos(k: u64) -> BlockPos {
    BlockPos {
        x: ((k >> 32u64) as u16) as i16,
        y: ((k >> 16u64) as u16) as i16,
        z: (k as u16) as i16,
    }
}

/// Decoding a key gives back the position it was made from; so distinct
/// positions have distinct keys.
pub proof fn lemma_key_roundtrip(p: BlockPos)
    ensures
        key_pos(pos_key(p)) == p,
{
    let x = p.x;
    let y = p.y;
    let z = p.z;
    assert(((((((x as u16) as u64) << 32u64 | ((y as u16) as u64) << 16u64 | ((z as u16) as u64))
        >> 32u64) as u16) as i16) == x) by (bit_vector);
    assert(((((((x as u16) as u64) << 32u64 | ((y as u16) as u64) << 16u64 | ((z as u16) as u64))
        >> 16u64) as u16) as i16) == y) by (bit_vector);
    assert((((((x as u16) as u64) << 32u64 | ((y as u16) as u64) << 16u64 | ((z as u16) as u64))
        as u16) as i16) == z) by (bit_vector);
}

/// Distinct positions have distinct keys.
pub proof fn lemma_key_injective(p: BlockPos, q: BlockPos)
    ensures
        pos_key(p) == pos_key(q) <==> p == q,
{
    lemma_key_roundtrip(p);
    lemma_key_roundtrip(q);
}

} // verus!
