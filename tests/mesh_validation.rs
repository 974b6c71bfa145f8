use glam::{U8Vec4, Vec2, Vec3};
use mycraft::mesh::{Mesh, MeshCreationError, VertexAttributeKind, VERTEX_ATTRIBUTE_KIND_COUNT};

fn positions(n: usize) -> Vec<Vec3> {
    (0..n).map(|i| Vec3::new(i as f32, 0.0, 0.0)).collect()
}

#[test]
fn vertices_only_use_implied_indices() {
    let mesh = Mesh::new(positions(9), vec![], vec![], vec![]).unwrap();
    assert!(mesh.indices().is_empty());
    assert_eq!(mesh.drawn_indices(), (0..9).collect::<Vec<usize>>());
    assert_eq!(mesh.vertices().len(), 9);
}

#[test]
fn indices_not_multiple_of_three() {
    let r = Mesh::new(positions(3), vec![0, 1, 2, 3], vec![], vec![]);
    assert_eq!(r.err(), Some(MeshCreationError::IndicesLengthNotMultipleOf3 { indices_length: 4 }));
}

#[test]
fn index_out_of_bounds_names_vertices() {
    let r = Mesh::new(positions(2), vec![0, 1, 2], vec![], vec![]);
    assert_eq!(
        r.err(),
        Some(MeshCreationError::IndicesOutOfBounds {
            out_of_bounds_vertex_attribute_name: "vertices",
            out_of_bounds_vertex_attribute_length: 2,
            max_index: 2,
        })
    );
}

#[test]
fn empty_mesh_with_indices() {
    let r = Mesh::new(vec![], vec![0, 1, 2], vec![], vec![]);
    assert_eq!(r.err(), Some(MeshCreationError::EmptyMeshWithNonemptyIndices { indices_length: 3 }));
}

#[test]
fn empty_mesh_is_valid() {
    let mesh = Mesh::new(vec![], vec![], vec![], vec![]).unwrap();
    assert!(mesh.drawn_indices().is_empty());
    assert!(mesh.uv().is_empty());
    assert!(mesh.colors().is_empty());
}

#[test]
fn shortest_attribute_bounds_indices() {
    let uv = vec![Vec2::ZERO; 3];
    let r = Mesh::new(positions(6), vec![0, 1, 4], uv.clone(), vec![]);
    assert_eq!(
        r.err(),
        Some(MeshCreationError::IndicesOutOfBounds {
            out_of_bounds_vertex_attribute_name: "uv",
            out_of_bounds_vertex_attribute_length: 3,
            max_index: 4,
        })
    );
    let mesh = Mesh::new(positions(6), vec![0, 1, 2, 2, 1, 0], uv, vec![]).unwrap();
    assert_eq!(mesh.drawn_indices(), vec![0, 1, 2, 2, 1, 0]);
}

#[test]
fn colors_shortest_and_ties_go_to_earlier_attribute() {
    let colors = vec![U8Vec4::splat(255); 2];
    let r = Mesh::new(positions(4), vec![3, 0, 1], vec![Vec2::ZERO; 4], colors);
    assert_eq!(
        r.err(),
        Some(MeshCreationError::IndicesOutOfBounds {
            out_of_bounds_vertex_attribute_name: "colors",
            out_of_bounds_vertex_attribute_length: 2,
            max_index: 3,
        })
    );
    let r = Mesh::new(positions(2), vec![0, 1, 5], vec![Vec2::ZERO; 2], vec![]);
    assert_eq!(
        r.err(),
        Some(MeshCreationError::IndicesOutOfBounds {
            out_of_bounds_vertex_attribute_name: "vertices",
            out_of_bounds_vertex_attribute_length: 2,
            max_index: 5,
        })
    );
}

#[test]
fn implied_indices_follow_shortest_nonempty() {
    let mesh = Mesh::new(positions(5), vec![], vec![Vec2::ZERO; 3], vec![]).unwrap();
    assert_eq!(mesh.drawn_indices(), vec![0, 1, 2]);
}

#[test]
fn attribute_kind_names_and_indices() {
    assert_eq!(VertexAttributeKind::Positions.attribute_name(), "vertices");
    assert_eq!(VertexAttributeKind::Uv.attribute_name(), "uv");
    assert_eq!(VertexAttributeKind::Colors.attribute_name(), "colors");
    assert_eq!(VertexAttributeKind::Colors.index(), 2);
    assert_eq!(VERTEX_ATTRIBUTE_KIND_COUNT, 3);
}
