use mt_client::mesh::{
    create_mesh, DrawType, LeavesMode, MapRenderSettings, MeshFace, NodeInfo, CONTENT_IDS, NODES_PER_BLOCK,
};

fn node(draw_type: DrawType, tile: usize, special: usize) -> NodeInfo {
    NodeInfo { draw_type, tiles: [tile; 6], special_tiles: [special; 6] }
}

fn nodes_with(defs: &[(u16, NodeInfo)]) -> Vec<Option<NodeInfo>> {
    let mut nodes = vec![None; CONTENT_IDS];
    for (id, d) in defs {
        nodes[*id as usize] = Some(*d);
    }
    nodes
}

fn index(x: usize, y: usize, z: usize) -> usize {
    x | (y << 4) | (z << 8)
}

#[test]
fn default_settings() {
    let s = MapRenderSettings::default();
    assert_eq!(s.leaves, LeavesMode::Fancy);
    assert!(!s.opaque_liquids);
}

#[test]
fn empty_block_has_no_faces() {
    let nodes = nodes_with(&[]);
    let content = vec![0u16; NODES_PER_BLOCK];
    assert!(create_mesh(&nodes, &MapRenderSettings::default(), &content).is_empty());
}

#[test]
fn single_cube_has_six_faces() {
    let nodes = nodes_with(&[(0, node(DrawType::Airlike, 0, 0)), (1, node(DrawType::Cube, 7, 9))]);
    let mut content = vec![0u16; NODES_PER_BLOCK];
    let i = index(3, 4, 5);
    content[i] = 1;
    let faces = create_mesh(&nodes, &MapRenderSettings::default(), &content);
    let expected: Vec<MeshFace> = (0..6).map(|f| MeshFace { index: i as u16, face: f, texture: 7 }).collect();
    assert_eq!(faces, expected);
}

#[test]
fn touching_cubes_hide_shared_faces() {
    let nodes = nodes_with(&[(0, node(DrawType::Airlike, 0, 0)), (1, node(DrawType::Cube, 1, 1))]);
    let mut content = vec![0u16; NODES_PER_BLOCK];
    let a = index(3, 4, 5);
    let b = index(4, 4, 5); // +x of a
    content[a] = 1;
    content[b] = 1;
    let faces = create_mesh(&nodes, &MapRenderSettings::default(), &content);
    assert_eq!(faces.len(), 10);
    // face 2 (+x) of a and face 3 (-x) of b are hidden
    assert!(!faces.iter().any(|m| m.index as usize == a && m.face == 2));
    assert!(!faces.iter().any(|m| m.index as usize == b && m.face == 3));
}

#[test]
fn non_cube_neighbor_does_not_hide() {
    let nodes = nodes_with(&[
        (0, node(DrawType::Airlike, 0, 0)),
        (1, node(DrawType::Cube, 1, 1)),
        (2, node(DrawType::GlassLike, 2, 2)),
    ]);
    let mut content = vec![0u16; NODES_PER_BLOCK];
    content[index(0, 0, 0)] = 1;
    content[index(0, 1, 0)] = 2; // above
    let faces = create_mesh(&nodes, &MapRenderSettings::default(), &content);
    // the cube hides the glass's bottom face; the glass does not hide the cube's top
    assert_eq!(faces.len(), 11);
    assert!(faces.iter().any(|m| m.index as usize == index(0, 0, 0) && m.face == 0));
    assert!(!faces.iter().any(|m| m.index as usize == index(0, 1, 0) && m.face == 1));
}

#[test]
fn faces_at_block_border_are_shown() {
    let nodes = nodes_with(&[(1, node(DrawType::Cube, 1, 1))]);
    let content = vec![1u16; NODES_PER_BLOCK];
    let faces = create_mesh(&nodes, &MapRenderSettings::default(), &content);
    // a full block of cubes shows only its outer faces: 6 sides of 16 x 16
    assert_eq!(faces.len(), 6 * 256);
}

#[test]
fn simple_leaves_use_special_tiles() {
    let nodes = nodes_with(&[(0, node(DrawType::Airlike, 0, 0)), (1, node(DrawType::AllFacesOpt, 3, 4))]);
    let mut content = vec![0u16; NODES_PER_BLOCK];
    content[0] = 1;
    let simple = MapRenderSettings { leaves: LeavesMode::Simple, opaque_liquids: false };
    let fancy = MapRenderSettings { leaves: LeavesMode::Fancy, opaque_liquids: false };
    assert!(create_mesh(&nodes, &simple, &content).iter().all(|m| m.texture == 4));
    assert!(create_mesh(&nodes, &fancy, &content).iter().all(|m| m.texture == 3));
    assert_eq!(create_mesh(&nodes, &simple, &content).len(), 6);
}

#[test]
fn undefined_content_draws_nothing() {
    let nodes = nodes_with(&[]);
    let mut content = vec![0u16; NODES_PER_BLOCK];
    content[10] = 500;
    assert!(create_mesh(&nodes, &MapRenderSettings::default(), &content).is_empty());
}
