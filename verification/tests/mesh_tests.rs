use resin_slicer::error::{ContractViolation, SliceError};
use resin_slicer::mesh::{triangle_is_degenerate, Mesh, Triangle, Vertex};
use resin_slicer::grid::GridPoint;
use resin_slicer::intersect::GridTriangle;
use resin_slicer::stl_processor::StlProcessorTrait;

fn bits(v: [f32; 3]) -> [u32; 3] {
    [v[0].to_bits(), v[1].to_bits(), v[2].to_bits()]
}

fn triangle(a: [f32; 3], b: [f32; 3], c: [f32; 3]) -> Triangle {
    Triangle { normal: [0; 3], vertices: [bits(a), bits(b), bits(c)] }
}

fn quad() -> Vec<Triangle> {
    vec![
        triangle([0.0, 0.0, 0.0], [1.0, 0.0, 0.0], [0.0, 1.0, 0.0]),
        triangle([1.0, 0.0, 0.0], [1.0, 1.0, 0.0], [0.0, 1.0, 0.0]),
    ]
}

struct FixedSource {
    triangles: Vec<Triangle>,
}

impl StlProcessorTrait for FixedSource {
    fn read_stl(&self, _filename: &str) -> Result<Vec<Triangle>, std::io::Error> {
        Ok(self.triangles.clone())
    }
}

struct BrokenSource;

impl StlProcessorTrait for BrokenSource {
    fn read_stl(&self, _filename: &str) -> Result<Vec<Triangle>, std::io::Error> {
        Err(std::io::Error::new(std::io::ErrorKind::NotFound, "no such model"))
    }
}

#[test]
fn mesh_test_default() {
    let mesh = Mesh::default();

    assert!(mesh.vertices.is_empty(), "Default vertices should be empty");
    assert!(mesh.indices.is_empty(), "Default indices should be empty");
}

#[test]
fn shared_positions_become_one_vertex() {
    let mut mesh = Mesh::default();
    mesh.generate_vertices_and_indices(&quad()).unwrap();
    let zero = [0u32; 3];
    assert_eq!(
        mesh.vertices,
        vec![
            Vertex::new(bits([0.0, 0.0, 0.0]), zero),
            Vertex::new(bits([1.0, 0.0, 0.0]), zero),
            Vertex::new(bits([0.0, 1.0, 0.0]), zero),
            Vertex::new(bits([1.0, 1.0, 0.0]), zero),
        ]
    );
    assert_eq!(mesh.indices, vec![0, 1, 2, 1, 3, 2]);
    assert!(mesh.vertices.len() < 3 * 2);
}

#[test]
fn positions_are_told_apart_by_their_bits() {
    let mut mesh = Mesh::default();
    let triangles = vec![triangle([0.0, 0.0, 0.0], [-0.0, 0.0, 0.0], [1.0e-30, 0.0, 0.0])];
    mesh.generate_vertices_and_indices(&triangles).unwrap();
    assert_eq!(mesh.vertices.len(), 3);
    assert_eq!(mesh.indices, vec![0, 1, 2]);
}

#[test]
fn triangles_without_shared_positions_keep_all_vertices() {
    let mut mesh = Mesh::default();
    let triangles = vec![
        triangle([0.0, 0.0, 0.0], [1.0, 0.0, 0.0], [0.0, 1.0, 0.0]),
        triangle([5.0, 0.0, 0.0], [6.0, 0.0, 0.0], [5.0, 1.0, 0.0]),
    ];
    mesh.generate_vertices_and_indices(&triangles).unwrap();
    assert_eq!(mesh.vertices.len(), 6);
    assert_eq!(mesh.indices, vec![0, 1, 2, 3, 4, 5]);
}

#[test]
fn face_normals_play_no_part_in_the_welding() {
    let mut with_normals = quad();
    with_normals[0].normal = bits([0.0, 0.0, 1.0]);
    with_normals[1].normal = bits([0.0, 0.0, -1.0]);
    let mut mesh = Mesh::default();
    mesh.generate_vertices_and_indices(&with_normals).unwrap();
    assert_eq!(mesh.vertices.len(), 4);
    assert!(mesh.vertices.iter().all(|v| v.normal == [0u32; 3]));
    assert_eq!(mesh.indices, vec![0, 1, 2, 1, 3, 2]);
    // The triangles of the mesh are listed with a normal of zeros.
    assert_eq!(mesh.into_triangle_vec().unwrap(), quad());
}

#[test]
fn building_replaces_what_the_mesh_held() {
    let mut mesh = Mesh::default();
    mesh.generate_vertices_and_indices(&quad()).unwrap();
    mesh.generate_vertices_and_indices(&Vec::new()).unwrap();
    assert!(mesh.vertices.is_empty());
    assert!(mesh.indices.is_empty());
}

#[test]
fn triangles_come_back_as_they_went_in() {
    let mut mesh = Mesh::default();
    mesh.generate_vertices_and_indices(&quad()).unwrap();
    assert_eq!(mesh.into_triangle_vec().unwrap(), quad());
    assert_eq!(mesh.get_triangles_for_slicing().unwrap(), quad());
}

#[test]
fn single_triangle_is_listed_with_its_positions() {
    let mesh = Mesh {
        vertices: vec![
            Vertex::new(bits([0.0, 0.0, 0.0]), bits([0.0, 0.0, 1.0])),
            Vertex::new(bits([1.0, 0.0, 0.0]), bits([0.0, 0.0, 1.0])),
            Vertex::new(bits([0.0, 1.0, 0.0]), bits([0.0, 0.0, 1.0])),
        ],
        indices: vec![0, 1, 2],
    };
    let triangles = mesh.into_triangle_vec().unwrap();
    assert_eq!(triangles.len(), 1, "There should be exactly one triangle.");
    assert_eq!(
        triangles[0],
        triangle([0.0, 0.0, 0.0], [1.0, 0.0, 0.0], [0.0, 1.0, 0.0])
    );
}

#[test]
fn index_count_must_be_a_multiple_of_three() {
    let mesh = Mesh {
        vertices: vec![Vertex::new([0; 3], [0; 3]); 3],
        indices: vec![0, 1, 2, 0],
    };
    assert_eq!(
        mesh.into_triangle_vec().err(),
        Some(SliceError::InputContractViolation(ContractViolation::TriangleCount))
    );
    assert_eq!(
        mesh.validate().err(),
        Some(SliceError::InputContractViolation(ContractViolation::TriangleCount))
    );
}

#[test]
fn index_must_name_a_vertex() {
    let mesh = Mesh {
        vertices: vec![Vertex::new([0; 3], [0; 3]); 3],
        indices: vec![0, 1, 3],
    };
    assert_eq!(
        mesh.into_triangle_vec().err(),
        Some(SliceError::InputContractViolation(ContractViolation::VertexIndex))
    );
    assert_eq!(
        mesh.to_grid_triangles().err(),
        Some(SliceError::InputContractViolation(ContractViolation::VertexIndex))
    );
}

#[test]
fn degenerate_triangles_are_dropped_from_the_indices() {
    let mut mesh = Mesh::default();
    let triangles = vec![
        triangle([0.0, 0.0, 0.0], [1.0, 0.0, 0.0], [0.0, 1.0, 0.0]),
        // No area: all corners on one line.
        triangle([0.0, 0.0, 0.0], [1.0, 0.0, 0.0], [2.0, 0.0, 0.0]),
        // No area: two corners at one place.
        triangle([1.0, 0.0, 0.0], [1.0, 0.0, 0.0], [0.0, 1.0, 0.0]),
        triangle([1.0, 0.0, 0.0], [1.0, 1.0, 0.0], [0.0, 1.0, 0.0]),
    ];
    mesh.generate_vertices_and_indices(&triangles).unwrap();
    assert_eq!(mesh.indices.len(), 12);
    let vertices_before = mesh.vertices.clone();
    mesh.remove_degenerate_triangles().unwrap();
    assert_eq!(mesh.indices, vec![0, 1, 2, 1, 4, 2]);
    assert_eq!(mesh.vertices, vertices_before);
}

#[test]
fn degenerate_means_a_cross_product_shorter_than_a_millionth() {
    let t = |bx: i64, cy: i64| GridTriangle {
        a: GridPoint { x: 0, y: 0, z: 0 },
        b: GridPoint { x: bx, y: 0, z: 0 },
        c: GridPoint { x: 0, y: cy, z: 0 },
    };
    // The cross product has the length bx * cy, in grid steps squared.
    assert!(triangle_is_degenerate(&t(999, 1000)));
    assert!(triangle_is_degenerate(&t(999_999, 1)));
    assert!(!triangle_is_degenerate(&t(1000, 1000)));
    assert!(!triangle_is_degenerate(&t(1_000_000, 1)));
    assert!(!triangle_is_degenerate(&t(-1000, 1000)));
    assert!(!triangle_is_degenerate(&t(2_000_000_000_000, 2_000_000_000_000)));
    let slanted = GridTriangle {
        a: GridPoint { x: 0, y: 0, z: 0 },
        b: GridPoint { x: 600_000, y: 0, z: 0 },
        c: GridPoint { x: 0, y: 1, z: 1 },
    };
    // Components 0, -600000 and 600000: the length is 848528.
    assert!(triangle_is_degenerate(&slanted));
}

#[test]
fn removal_refuses_a_mesh_off_the_grid() {
    let mut mesh = Mesh {
        vertices: vec![
            Vertex::new(bits([0.0, 0.0, 0.0]), [0; 3]),
            Vertex::new(bits([f32::INFINITY, 0.0, 0.0]), [0; 3]),
            Vertex::new(bits([0.0, 1.0, 0.0]), [0; 3]),
        ],
        indices: vec![0, 1, 2],
    };
    assert_eq!(
        mesh.remove_degenerate_triangles().err(),
        Some(SliceError::InputContractViolation(ContractViolation::Coordinate))
    );
    assert_eq!(mesh.indices, vec![0, 1, 2]);
}

#[test]
fn import_builds_the_mesh_from_what_the_source_reads() {
    let mut mesh = Mesh::default();
    let source = FixedSource { triangles: quad() };
    mesh.import_stl("dummy_filename.stl", &source).unwrap();
    assert_eq!(mesh.vertices.len(), 4);
    assert_eq!(mesh.indices, vec![0, 1, 2, 1, 3, 2]);
}

#[test]
fn import_leaves_the_mesh_alone_when_the_source_fails() {
    let mut mesh = Mesh::default();
    mesh.generate_vertices_and_indices(&quad()).unwrap();
    assert_eq!(
        mesh.import_stl("missing.stl", &BrokenSource).err(),
        Some(SliceError::InputContractViolation(ContractViolation::UnreadableSource))
    );
    assert_eq!(mesh.indices, vec![0, 1, 2, 1, 3, 2]);
}

#[test]
fn vertex_keeps_its_bits() {
    let v = Vertex::new([1, 2, 3], [4, 5, 6]);
    assert_eq!(v.position_bits(), [1, 2, 3]);
    assert_eq!(v.normal_bits(), [4, 5, 6]);
    assert_eq!(v, Vertex { position: [1, 2, 3], normal: [4, 5, 6] });
}
