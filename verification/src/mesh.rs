//! Which faces of the nodes of a map block the mesh of that block shows.
//!
//! A map block holds 16 x 16 x 16 nodes; node `i` sits at x = i % 16,
//! y = i / 16 % 16, z = i / 256. A face is drawn unless the node behind it, in
//! the same block, is drawn as a full cube.

use vstd::prelude::*;

verus! {

/// The number of nodes in a map block.
pub const NODES_PER_BLOCK: usize = 4096;

/// The number of node content ids.
pub const CONTENT_IDS: usize = 65536;

/// How leaves (nodes drawn `AllFacesOpt`) are drawn.
#[derive(Clone, Copy, Debug, PartialEq, Eq, Structural)]
pub enum LeavesMode {
    Opaque,
    Simple,
    Fancy,
}

/// The settings of the map renderer.
#[derive(Clone, Copy, Debug, PartialEq, Eq, Structural)]
pub struct MapRenderSettings {
    pub leaves: LeavesMode,
    pub opaque_liquids: bool,
}

impl Default for MapRenderSettings {
    /// Fancy leaves, translucent liquids.
    fn default() -> (s: Self)
        ensures
            s.leaves == LeavesMode::Fancy,
            !s.opaque_liquids,
    {
        MapRenderSettings { leaves: LeavesMode::Fancy, opaque_liquids: false }
    }
}

/// How a node is drawn.
#[derive(Clone, Copy, Debug, PartialEq, Eq, Structural)]
pub enum DrawType {
    Cube,
    Airlike,
    Liquid,
    Flowing,
    GlassLike,
    AllFaces,
    AllFacesOpt,
    Torch,
    Sign,
    Plant,
    Fence,
    Rail,
    NodeBox,
    GlassLikeFramed,
    Fire,
    GlassLikeFramedOpt,
    Mesh,
    PlantRooted,
}

/// What the mesh generator needs of a node definition: how it is drawn and
/// the atlas texture of each of its six tiles, and of its six special tiles.
#[derive(Clone, Copy, Debug)]
pub struct NodeInfo {
    pub draw_type: DrawType,
    pub tiles: [usize; 6],
    pub special_tiles: [usize; 6],
}

/// A face of the mesh: face `face` of node `index`, drawn with atlas texture
/// `texture`.
#[derive(Clone, Copy, Debug, PartialEq, Eq, Structural)]
pub struct MeshFace {
    pub index: u16,
    pub face: u8,
    pub texture: usize,
}

/// The x coordinate of node `i` in its block.
pub open spec fn node_x(i: int) -> int {
    i % 16
}

/// The y coordinate of node `i` in its block.
pub open spec fn node_y(i: int) -> int {
    (i / 16) % 16
}

/// The z coordinate of node `i` in its block.
pub open spec fn node_z(i: int) -> int {
    i / 256
}

/// The index of the node at (x, y, z) in its block.
pub open spec fn node_index(x: int, y: int, z: int) -> int {
    x + 16 * y + 256 * z
}

/// The coordinate lies inside a block.
pub open spec fn in_block(c: int) -> bool {
    0 <= c < 16
}

/// Offsets of the six faces: +y, -y, +x, -x, +z, -z.
pub open spec fn fdx(f: int) -> int {
    if f == 2 { 1 } else if f == 3 { -1 } else { 0 }
}

pub open spec fn fdy(f: int) -> int {
    if f == 0 { 1 } else if f == 1 { -1 } else { 0 }
}

pub open spec fn fdz(f: int) -> int {
    if f == 4 { 1 } else if f == 5 { -1 } else { 0 }
}

/// Face `f` of node `i` is hidden: the node behind it lies in the same block
/// and is defined as drawn as a full cube.
pub open spec fn face_hidden(nodes: Seq<Option<NodeInfo>>, content: Seq<u16>, i: int, f: int) -> bool {
    let nx = node_x(i) + fdx(f);
    let ny = node_y(i) + fdy(f);
    let nz = node_z(i) + fdz(f);
    &&& in_block(nx) && in_block(ny) && in_block(nz)
    &&& nodes[content[node_index(nx, ny, nz)] as int] matches Some(n) && n.draw_type == DrawType::Cube
}

/// The atlas texture of face `f` of a node: leaves drawn `Simple` use their
/// special tiles.
pub open spec fn face_texture(settings: MapRenderSettings, def: NodeInfo, f: int) -> usize {
    if def.draw_type == DrawType::AllFacesOpt && settings.leaves == LeavesMode::Simple {
        def.special_tiles@[f]
    } else {
        def.tiles@[f]
    }
}

/// The faces among the first `n` faces of node `i` that the mesh shows.
pub open spec fn node_faces_upto(
    nodes: Seq<Option<NodeInfo>>,
    settings: MapRenderSettings,
    content: Seq<u16>,
    i: int,
    n: int,
) -> Seq<MeshFace>
    decreases n,
{
    if n <= 0 {
        Seq::empty()
    } else {
        node_faces_upto(nodes, settings, content, i, n - 1) + match nodes[content[i] as int] {
            Some(def) => if def.draw_type != DrawType::Airlike && !face_hidden(nodes, content, i, n - 1) {
                seq![MeshFace { index: i as u16, face: (n - 1) as u8, texture: face_texture(settings, def, n - 1) }]
            } else {
                Seq::empty()
            },
            None => Seq::empty(),
        }
    }
}

/// The faces of the first `i` nodes that the mesh shows, node by node, and
/// for each node face by face.
pub open spec fn block_faces_upto(
    nodes: Seq<Option<NodeInfo>>,
    settings: MapRenderSettings,
    content: Seq<u16>,
    i: int,
) -> Seq<MeshFace>
    decreases i,
{
    if i <= 0 {
        Seq::empty()
    } else {
        block_faces_upto(nodes, settings, content, i - 1) + node_faces_upto(nodes, settings, content, i - 1, 6)
    }
}

/// Decoding a node index with shifts and masks, as the mesh generator does,
/// gives its coordinates.
proof fn lemma_node_coords(i: usize)
    requires
        i < 4096,
    ensures
        (i & 0xf) == node_x(i as int),
        ((i >> 4usize) & 0xf) == node_y(i as int),
        ((i >> 8usize) & 0xf) == node_z(i as int),
{
    assert((i & 0xf) == i % 16) by (bit_vector);
    assert(((i >> 4usize) & 0xf) == (i / 16) % 16) by (bit_vector);
    assert(i < 4096 ==> ((i >> 8usize) & 0xf) == i / 256) by (bit_vector);
}

/// Encoding coordinates with shifts and ors, as the mesh generator does,
/// gives the node index.
proof fn lemma_node_encode(x: i16, y: i16, z: i16)
    requires
        0 <= x < 16,
        0 <= y < 16,
        0 <= z < 16,
    ensures
        (x | (y << 4i16) | (z << 8i16)) == node_index(x as int, y as int, z as int),
{
    assert(0 <= x < 16 && 0 <= y < 16 && 0 <= z < 16 ==> (x | (y << 4i16) | (z << 8i16)) == x + 16 * y + 256 * z)
        by (bit_vector);
}

/// The coordinates of a node index give it back, and a node index of
/// coordinates gives them back.
pub proof fn lemma_node_index_roundtrip(i: int, x: int, y: int, z: int)
    requires
        0 <= i < 4096,
        in_block(x) && in_block(y) && in_block(z),
    ensures
        node_index(node_x(i), node_y(i), node_z(i)) == i,
        0 <= node_index(x, y, z) < 4096,
        node_x(node_index(x, y, z)) == x,
        node_y(node_index(x, y, z)) == y,
        node_z(node_index(x, y, z)) == z,
        in_block(node_x(i)) && in_block(node_y(i)) && in_block(node_z(i)),
{
}

/// Picks the faces of the nodes of a block that its mesh shows: for each
/// node in index order that is defined and not drawn `Airlike`, each face in
/// face order that no full cube in the same block hides, with the texture of
/// the matching tile.
pub fn create_mesh(nodes: &Vec<Option<NodeInfo>>, settings: &MapRenderSettings, content: &Vec<u16>) -> (faces: Vec<MeshFace>)
    requires
        nodes.len() == CONTENT_IDS,
        content.len() == NODES_PER_BLOCK,
    ensures
        faces@ == block_faces_upto(nodes@, *settings, content@, NODES_PER_BLOCK as int),
        forall|k: int| 0 <= k < faces@.len() ==> face_uses_own_tile(nodes@, *settings, content@, #[trigger] faces@[k]),
{
    let mut faces: Vec<MeshFace> = Vec::new();
    let mut index: usize = 0;
    while index < NODES_PER_BLOCK
        invariant
            0 <= index <= NODES_PER_BLOCK,
            nodes.len() == CONTENT_IDS,
            content.len() == NODES_PER_BLOCK,
            faces@ == block_faces_upto(nodes@, *settings, content@, index as int),
        decreases NODES_PER_BLOCK - index,
    {
        let c = content[index];
        match nodes[c as usize] {
            Some(def) => {
                if def.draw_type != DrawType::Airlike {
                    let use_special = def.draw_type == DrawType::AllFacesOpt && settings.leaves == LeavesMode::Simple;
                    proof {
                        lemma_node_coords(index);
                    }
                    let px = (index & 0xf) as i16;
                    let py = ((index >> 4usize) & 0xf) as i16;
                    let pz = ((index >> 8usize) & 0xf) as i16;
                    let ghost before = faces@;
                    let mut f: usize = 0;
                    while f < 6
                        invariant
                            0 <= f <= 6,
                            index < NODES_PER_BLOCK,
                            nodes.len() == CONTENT_IDS,
                            content.len() == NODES_PER_BLOCK,
                            nodes@[content@[index as int] as int] == Some(def),
                            def.draw_type != DrawType::Airlike,
                            use_special == (def.draw_type == DrawType::AllFacesOpt && settings.leaves == LeavesMode::Simple),
                            px == node_x(index as int),
                            py == node_y(index as int),
                            pz == node_z(index as int),
                            before == block_faces_upto(nodes@, *settings, content@, index as int),
                            faces@ == before + node_faces_upto(nodes@, *settings, content@, index as int, f as int),
                        decreases 6 - f,
                    {
                        let (dx, dy, dz) = face_dir_in_block(f);
                        let nx = px + dx;
                        let ny = py + dy;
                        let nz = pz + dz;
                        let mut hidden = false;
                        if 0 <= nx && nx < 16 && 0 <= ny && ny < 16 && 0 <= nz && nz < 16 {
                            proof {
                                lemma_node_encode(nx, ny, nz);
                            }
                            let nindex = nx | (ny << 4i16) | (nz << 8i16);
                            match nodes[content[nindex as usize] as usize] {
                                Some(ndef) => {
                                    if ndef.draw_type == DrawType::Cube {
                                        hidden = true;
                                    }
                                },
                                None => {},
                            }
                        }
                        if !hidden {
                            let texture = if use_special {
                                def.special_tiles[f]
                            } else {
                                def.tiles[f]
                            };
                            faces.push(MeshFace { index: index as u16, face: f as u8, texture });
                        }
                        proof {
                            assert(faces@ =~= before + node_faces_upto(nodes@, *settings, content@, index as int, f + 1));
                        }
                        f = f + 1;
                    }
                } else {
                    proof {
                        assert(node_faces_upto(nodes@, *settings, content@, index as int, 6) =~= Seq::empty()) by {
                            reveal_with_fuel(node_faces_upto, 7);
                        }
                    }
                }
            },
            None => {
                proof {
                    assert(node_faces_upto(nodes@, *settings, content@, index as int, 6) =~= Seq::empty()) by {
                        reveal_with_fuel(node_faces_upto, 7);
                    }
                }
            },
        }
        index = index + 1;
    }
    proof {
        lemma_faces_use_own_tile(nodes@, *settings, content@, NODES_PER_BLOCK as int);
    }
    faces
}

/// The offset of face `f`, as in the face table.
fn face_dir_in_block(f: usize) -> (d: (i16, i16, i16))
    requires
        f < 6,
    ensures
        d.0 == fdx(f as int),
        d.1 == fdy(f as int),
        d.2 == fdz(f as int),
{
    if f == 0 {
        (0, 1, 0)
    } else if f == 1 {
        (0, -1, 0)
    } else if f == 2 {
        (1, 0, 0)
    } else if f == 3 {
        (-1, 0, 0)
    } else if f == 4 {
        (0, 0, 1)
    } else {
        (0, 0, -1)
    }
}

/// A face that the mesh of a block shows belongs to a defined node that is
/// drawn, is not hidden by a full cube behind it in the same block, and
/// carries the texture of its tile; each face shows at most once, and every
/// such face shows.
pub open spec fn face_shown(nodes: Seq<Option<NodeInfo>>, settings: MapRenderSettings, content: Seq<u16>, m: MeshFace) -> bool {
    &&& (m.index as int) < NODES_PER_BLOCK
    &&& (m.face as int) < 6
    &&& nodes[content[m.index as int] as int] matches Some(def) && {
        &&& def.draw_type != DrawType::Airlike
        &&& !face_hidden(nodes, content, m.index as int, m.face as int)
        &&& m.texture == face_texture(settings, def, m.face as int)
    }
}

proof fn lemma_node_faces_shown(
    nodes: Seq<Option<NodeInfo>>,
    settings: MapRenderSettings,
    content: Seq<u16>,
    i: int,
    n: int,
)
    requires
        0 <= i < NODES_PER_BLOCK,
        0 <= n <= 6,
    ensures
        forall|j: int| 0 <= j < node_faces_upto(nodes, settings, content, i, n).len() ==> {
            let m = #[trigger] node_faces_upto(nodes, settings, content, i, n)[j];
            &&& face_shown(nodes, settings, content, m)
            &&& m.index as int == i
            &&& (m.face as int) < n
        },
        forall|f: int| #![trigger face_hidden(nodes, content, i, f)] 0 <= f < n && (nodes[content[i] as int] matches Some(def)
            && def.draw_type != DrawType::Airlike && !face_hidden(nodes, content, i, f))
            ==> node_faces_upto(nodes, settings, content, i, n).contains(
                MeshFace { index: i as u16, face: f as u8, texture: face_texture(settings, nodes[content[i] as int]->0, f) },
            ),
    decreases n,
{
    if n > 0 {
        lemma_node_faces_shown(nodes, settings, content, i, n - 1);
        let prev = node_faces_upto(nodes, settings, content, i, n - 1);
        let cur = node_faces_upto(nodes, settings, content, i, n);
        assert forall|j: int| 0 <= j < cur.len() implies {
            let m = #[trigger] cur[j];
            &&& face_shown(nodes, settings, content, m)
            &&& m.index as int == i
            &&& (m.face as int) < n
        } by {
            if j < prev.len() {
                assert(cur[j] == prev[j]);
            }
        }
        assert forall|f: int| #![trigger face_hidden(nodes, content, i, f)] 0 <= f < n && (nodes[content[i] as int] matches Some(def)
            && def.draw_type != DrawType::Airlike && !face_hidden(nodes, content, i, f))
            implies cur.contains(
                MeshFace { index: i as u16, face: f as u8, texture: face_texture(settings, nodes[content[i] as int]->0, f) },
            ) by {
            let m = MeshFace { index: i as u16, face: f as u8, texture: face_texture(settings, nodes[content[i] as int]->0, f) };
            if f < n - 1 {
                let j = choose|j: int| 0 <= j < prev.len() && prev[j] == m;
                assert(cur[j] == m);
            } else {
                assert(cur[prev.len() as int] == m);
            }
        }
    }
}

proof fn lemma_block_faces_shown(nodes: Seq<Option<NodeInfo>>, settings: MapRenderSettings, content: Seq<u16>, i: int)
    requires
        0 <= i <= NODES_PER_BLOCK,
    ensures
        forall|j: int| 0 <= j < block_faces_upto(nodes, settings, content, i).len() ==> {
            let m = #[trigger] block_faces_upto(nodes, settings, content, i)[j];
            &&& face_shown(nodes, settings, content, m)
            &&& (m.index as int) < i
        },
        forall|m: MeshFace| #[trigger] face_shown(nodes, settings, content, m) && (m.index as int) < i
            ==> block_faces_upto(nodes, settings, content, i).contains(m),
    decreases i,
{
    if i > 0 {
        lemma_block_faces_shown(nodes, settings, content, i - 1);
        lemma_node_faces_shown(nodes, settings, content, i - 1, 6);
        let prev = block_faces_upto(nodes, settings, content, i - 1);
        let last = node_faces_upto(nodes, settings, content, i - 1, 6);
        let cur = block_faces_upto(nodes, settings, content, i);
        assert forall|j: int| 0 <= j < cur.len() implies {
            let m = #[trigger] cur[j];
            &&& face_shown(nodes, settings, content, m)
            &&& (m.index as int) < i
        } by {
            if j < prev.len() {
                assert(cur[j] == prev[j]);
            } else {
                assert(cur[j] == last[j - prev.len()]);
            }
        }
        assert forall|m: MeshFace| #[trigger] face_shown(nodes, settings, content, m) && (m.index as int) < i
            implies cur.contains(m) by {
            if (m.index as int) < i - 1 {
                let j = choose|j: int| 0 <= j < prev.len() && prev[j] == m;
                assert(cur[j] == m);
            } else {
                assert(!face_hidden(nodes, content, i - 1, m.face as int));
                let j = choose|j: int| 0 <= j < last.len() && last[j] == m;
                assert(cur[prev.len() + j] == m);
            }
        }
    }
}

/// The mesh of a block shows exactly the faces that `face_shown` describes:
/// every face it lists is shown, and every shown face is listed.
pub proof fn lemma_mesh_shows_exactly_visible_faces(
    nodes: Seq<Option<NodeInfo>>,
    settings: MapRenderSettings,
    content: Seq<u16>,
)
    ensures
        forall|j: int| 0 <= j < block_faces_upto(nodes, settings, content, NODES_PER_BLOCK as int).len()
            ==> face_shown(nodes, settings, content, #[trigger] block_faces_upto(nodes, settings, content, NODES_PER_BLOCK as int)[j]),
        forall|m: MeshFace| #[trigger] face_shown(nodes, settings, content, m)
            ==> block_faces_upto(nodes, settings, content, NODES_PER_BLOCK as int).contains(m),
{
    lemma_block_faces_shown(nodes, settings, content, NODES_PER_BLOCK as int);
}

/// A face between two nodes of the same block that are both drawn as full
/// cubes is never shown.
pub proof fn lemma_faces_between_cubes_hidden(
    nodes: Seq<Option<NodeInfo>>,
    settings: MapRenderSettings,
    content: Seq<u16>,
    m: MeshFace,
)
    requires
        face_shown(nodes, settings, content, m),
    ensures
        ({
            let i = m.index as int;
            let f = m.face as int;
            let nx = node_x(i) + fdx(f);
            let ny = node_y(i) + fdy(f);
            let nz = node_z(i) + fdz(f);
            in_block(nx) && in_block(ny) && in_block(nz) ==> !(nodes[content[node_index(nx, ny, nz)] as int] matches Some(n)
                && n.draw_type == DrawType::Cube)
        }),
{
}


/// A face of the mesh belongs to a defined node of the block, is one of its
/// six faces, and is drawn with that node's tile for that very face: its
/// special tile where leaves are drawn simple, its ordinary tile otherwise.
pub open spec fn face_uses_own_tile(nodes: Seq<Option<NodeInfo>>, settings: MapRenderSettings, content: Seq<u16>, mf: MeshFace) -> bool {
    &&& 0 <= mf.index < 4096
    &&& 0 <= mf.face < 6
    &&& nodes[content[mf.index as int] as int] matches Some(def) && mf.texture == (if def.draw_type == DrawType::AllFacesOpt
        && settings.leaves == LeavesMode::Simple {
        def.special_tiles[mf.face as int]
    } else {
        def.tiles[mf.face as int]
    })
}

proof fn lemma_node_faces_own_tile(nodes: Seq<Option<NodeInfo>>, settings: MapRenderSettings, content: Seq<u16>, i: int, n: int)
    requires
        0 <= i < 4096,
        n <= 6,
    ensures
        forall|k: int| 0 <= k < node_faces_upto(nodes, settings, content, i, n).len()
            ==> face_uses_own_tile(nodes, settings, content, #[trigger] node_faces_upto(nodes, settings, content, i, n)[k]),
    decreases n,
{
    if n > 0 {
        lemma_node_faces_own_tile(nodes, settings, content, i, n - 1);
        let prev = node_faces_upto(nodes, settings, content, i, n - 1);
        assert forall|k: int| 0 <= k < node_faces_upto(nodes, settings, content, i, n).len()
            implies face_uses_own_tile(nodes, settings, content, #[trigger] node_faces_upto(nodes, settings, content, i, n)[k]) by {
            if k < prev.len() {
                assert(node_faces_upto(nodes, settings, content, i, n)[k] == prev[k]);
            }
        }
    }
}

/// Every face of a block's mesh is drawn with the tile that the node's
/// definition gives for that face.
pub proof fn lemma_faces_use_own_tile(nodes: Seq<Option<NodeInfo>>, settings: MapRenderSettings, content: Seq<u16>, i: int)
    requires
        0 <= i <= 4096,
    ensures
        forall|k: int| 0 <= k < block_faces_upto(nodes, settings, content, i).len()
            ==> face_uses_own_tile(nodes, settings, content, #[trigger] block_faces_upto(nodes, settings, content, i)[k]),
    decreases i,
{
    if i > 0 {
        lemma_faces_use_own_tile(nodes, settings, content, i - 1);
        lemma_node_faces_own_tile(nodes, settings, content, i - 1, 6);
        let prev = block_faces_upto(nodes, settings, content, i - 1);
        let cur = node_faces_upto(nodes, settings, content, i - 1, 6);
        assert forall|k: int| 0 <= k < block_faces_upto(nodes, settings, content, i).len()
            implies face_uses_own_tile(nodes, settings, content, #[trigger] block_faces_upto(nodes, settings, content, i)[k]) by {
            if k < prev.len() {
                assert(block_faces_upto(nodes, settings, content, i)[k] == prev[k]);
            } else {
                assert(block_faces_upto(nodes, settings, content, i)[k] == cur[k - prev.len()]);
            }
        }
    }
}

} // verus!
