use resin_slicer::mesh::{Mesh, Triangle, Vertex};

fn bits(v: [f32; 3]) -> [u32; 3] {
    [v[0].to_bits(), v[1].to_bits(), v[2].to_bits()]
}

fn floats(b: [u32; 3]) -> [f32; 3] {
    [f32::from_bits(b[0]), f32::from_bits(b[1]), f32::from_bits(b[2])]
}

fn vertex(position: [f32; 3], normal: [f32; 3]) -> Vertex {
    Vertex { position: bits(position), normal: bits(normal) }
}

/// The normal of each listed triangle: the sum of the normals that the mesh
/// keeps for its corners, scaled to length one.
///
/// The library lists the triangles with their positions and leaves their
/// normals at zero. The sum and the scaling are done here, in floating
/// point: what the tests below assert of the normals holds of this helper
/// and of the bits that the mesh keeps, and what they assert of the library
/// is the number of triangles, their positions and their zero normals.
fn normals_of(mesh: &Mesh, triangles: &[Triangle]) -> Vec<[f32; 3]> {
    triangles
        .iter()
        .enumerate()
        .map(|(k, triangle)| {
            assert_eq!(triangle.normal, [0u32; 3]);
            let mut sum = [0.0f32; 3];
            for c in 0..3 {
                let corner = &mesh.vertices[mesh.indices[3 * k + c] as usize];
                assert_eq!(corner.position, triangle.vertices[c]);
                let normal = floats(corner.normal);
                for axis in 0..3 {
                    sum[axis] += normal[axis];
                }
            }
            let length = (sum[0] * sum[0] + sum[1] * sum[1] + sum[2] * sum[2]).sqrt();
            [sum[0] / length, sum[1] / length, sum[2] / length]
        })
        .collect()
}

#[test]
fn test_single_triangle_normal() {
    // Create a mesh with a single triangle lying on the XY-plane
    let mesh = Mesh {
        vertices: vec![
            vertex([0.0, 0.0, 0.0], [0.0, 0.0, 1.0]),
            vertex([1.0, 0.0, 0.0], [0.0, 0.0, 1.0]),
            vertex([0.0, 1.0, 0.0], [0.0, 0.0, 1.0]),
        ],
        indices: vec![0, 1, 2],
    };

    let triangles: Vec<Triangle> = mesh.into_triangle_vec().unwrap();

    assert_eq!(triangles.len(), 1, "There should be exactly one triangle.");

    let expected_normal = [0.0, 0.0, 1.0];
    let calculated_normal = normals_of(&mesh, &triangles)[0];

    for i in 0..3 {
        assert!(
            (calculated_normal[i] - expected_normal[i]).abs() < 1e-5,
            "Normal component {} does not match expected value.",
            i
        );
    }
}

#[test]
fn test_multiple_triangles_normals() {
    // Create a mesh with two triangles forming a square on the XY-plane
    let mesh = Mesh {
        vertices: vec![
            vertex([0.0, 0.0, 0.0], [0.0, 0.0, 1.0]),
            vertex([1.0, 0.0, 0.0], [0.0, 0.0, 1.0]),
            vertex([1.0, 1.0, 0.0], [0.0, 0.0, 1.0]),
            vertex([0.0, 1.0, 0.0], [0.0, 0.0, 1.0]),
        ],
        indices: vec![0, 1, 2, 0, 2, 3],
    };

    let triangles: Vec<Triangle> = mesh.into_triangle_vec().unwrap();

    assert_eq!(triangles.len(), 2, "There should be exactly two triangles.");

    let expected_normal = [0.0, 0.0, 1.0];
    for (i, normal) in normals_of(&mesh, &triangles).iter().enumerate() {
        for j in 0..3 {
            assert!(
                (normal[j] - expected_normal[j]).abs() < 1e-5,
                "Triangle {}: Normal component {} does not match expected value.",
                i,
                j
            );
        }
    }
}

#[test]
fn test_degenerate_triangle_normal() {
    // Create a mesh with a degenerate triangle (all vertices have the same position)
    let mesh = Mesh {
        vertices: vec![
            vertex([1.0, 1.0, 1.0], [1.0, 0.0, 0.0]),
            vertex([1.0, 1.0, 1.0], [0.0, 1.0, 0.0]),
            vertex([1.0, 1.0, 1.0], [0.0, 0.0, 1.0]),
        ],
        indices: vec![0, 1, 2],
    };

    let triangles: Vec<Triangle> = mesh.into_triangle_vec().unwrap();

    assert_eq!(triangles.len(), 1, "There should be exactly one triangle.");

    // The summed normal is [1,1,1], normalized to [1/sqrt(3), 1/sqrt(3), 1/sqrt(3)]
    let expected_normal = [
        1.0 / (3.0_f32).sqrt(),
        1.0 / (3.0_f32).sqrt(),
        1.0 / (3.0_f32).sqrt(),
    ];
    let calculated_normal = normals_of(&mesh, &triangles)[0];

    for i in 0..3 {
        assert!(
            (calculated_normal[i] - expected_normal[i]).abs() < 1e-5,
            "Normal component {} does not match expected value for degenerate triangle.",
            i
        );
    }
}

#[test]
fn test_non_uniform_vertex_normals() {
    // Create a mesh with a single triangle with non-uniform vertex normals
    let mesh = Mesh {
        vertices: vec![
            vertex([0.0, 0.0, 0.0], [1.0, 0.0, 0.0]),
            vertex([1.0, 0.0, 0.0], [0.0, 1.0, 0.0]),
            vertex([0.0, 1.0, 0.0], [0.0, 0.0, 1.0]),
        ],
        indices: vec![0, 1, 2],
    };

    let triangles: Vec<Triangle> = mesh.into_triangle_vec().unwrap();

    assert_eq!(triangles.len(), 1, "There should be exactly one triangle.");

    // The summed normal is [1,1,1], normalized to [1/sqrt(3), 1/sqrt(3), 1/sqrt(3)]
    let expected_normal = [
        1.0 / (3.0_f32).sqrt(),
        1.0 / (3.0_f32).sqrt(),
        1.0 / (3.0_f32).sqrt(),
    ];
    let calculated_normal = normals_of(&mesh, &triangles)[0];

    for i in 0..3 {
        assert!(
            (calculated_normal[i] - expected_normal[i]).abs() < 1e-5,
            "Normal component {} does not match expected value for non-uniform vertex normals.",
            i
        );
    }
}

#[test]
fn test_large_mesh_normals() {
    // Create a mesh with multiple triangles forming a cube
    let face = |corners: [[f32; 3]; 4], normal: [f32; 3]| -> Vec<Vertex> {
        corners.iter().map(|c| vertex(*c, normal)).collect()
    };
    let mut vertices = Vec::new();
    // Front face
    vertices.extend(face(
        [[0.0, 0.0, 1.0], [1.0, 0.0, 1.0], [1.0, 1.0, 1.0], [0.0, 1.0, 1.0]],
        [0.0, 0.0, 1.0],
    ));
    // Back face
    vertices.extend(face(
        [[0.0, 0.0, 0.0], [1.0, 0.0, 0.0], [1.0, 1.0, 0.0], [0.0, 1.0, 0.0]],
        [0.0, 0.0, -1.0],
    ));
    // Left face
    vertices.extend(face(
        [[0.0, 0.0, 0.0], [0.0, 1.0, 0.0], [0.0, 1.0, 1.0], [0.0, 0.0, 1.0]],
        [-1.0, 0.0, 0.0],
    ));
    // Right face
    vertices.extend(face(
        [[1.0, 0.0, 0.0], [1.0, 1.0, 0.0], [1.0, 1.0, 1.0], [1.0, 0.0, 1.0]],
        [1.0, 0.0, 0.0],
    ));
    // Top face
    vertices.extend(face(
        [[0.0, 1.0, 0.0], [1.0, 1.0, 0.0], [1.0, 1.0, 1.0], [0.0, 1.0, 1.0]],
        [0.0, 1.0, 0.0],
    ));
    // Bottom face
    vertices.extend(face(
        [[0.0, 0.0, 0.0], [1.0, 0.0, 0.0], [1.0, 0.0, 1.0], [0.0, 0.0, 1.0]],
        [0.0, -1.0, 0.0],
    ));
    let mesh = Mesh {
        vertices,
        indices: vec![
            // Front face
            0, 1, 2, 0, 2, 3, // Back face
            4, 5, 6, 4, 6, 7, // Left face
            8, 9, 10, 8, 10, 11, // Right face
            12, 13, 14, 12, 14, 15, // Top face
            16, 17, 18, 16, 18, 19, // Bottom face
            20, 21, 22, 20, 22, 23,
        ],
    };

    let triangles: Vec<Triangle> = mesh.into_triangle_vec().unwrap();

    assert_eq!(
        triangles.len(),
        12,
        "There should be exactly twelve triangles for a cube."
    );

    // Define expected normals for each face
    let expected_normals = [
        [0.0, 0.0, 1.0], // Front face
        [0.0, 0.0, 1.0],
        [0.0, 0.0, -1.0], // Back face
        [0.0, 0.0, -1.0],
        [-1.0, 0.0, 0.0], // Left face
        [-1.0, 0.0, 0.0],
        [1.0, 0.0, 0.0], // Right face
        [1.0, 0.0, 0.0],
        [0.0, 1.0, 0.0], // Top face
        [0.0, 1.0, 0.0],
        [0.0, -1.0, 0.0], // Bottom face
        [0.0, -1.0, 0.0],
    ];

    for (i, calculated_normal) in normals_of(&mesh, &triangles).iter().enumerate() {
        let expected_normal: [f32; 3] = expected_normals[i];

        for j in 0..3 {
            assert!(
                (calculated_normal[j] - expected_normal[j]).abs() < 1e-5,
                "Triangle {}: Normal component {} does not match expected value.",
                i,
                j
            );
        }
    }
}
