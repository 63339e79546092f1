use resin_slicer::error::{ContractViolation, SliceError};
use resin_slicer::mesh::Triangle;
use resin_slicer::stl_processor::{
    triangles_from_indexed, IndexedFace, IndexedFaces, StlProcessor,
};

fn bits(v: [f32; 3]) -> [u32; 3] {
    [v[0].to_bits(), v[1].to_bits(), v[2].to_bits()]
}

fn binary_model(triangles: &[[[f32; 3]; 3]]) -> Vec<u8> {
    let mut bytes = vec![0u8; 80];
    bytes.extend_from_slice(&(triangles.len() as u32).to_le_bytes());
    for (number, triangle) in triangles.iter().enumerate() {
        for coordinate in [0.0f32, -1.0, number as f32] {
            bytes.extend_from_slice(&coordinate.to_le_bytes());
        }
        for corner in triangle {
            for coordinate in corner {
                bytes.extend_from_slice(&coordinate.to_le_bytes());
            }
        }
        bytes.extend_from_slice(&[0u8, 0u8]);
    }
    bytes
}

#[test]
fn text_model_is_read() {
    let text = "solid square
facet normal 0 0 1
    outer loop
        vertex 0 0 0
        vertex 1 0 0
        vertex 0 1 0
    endloop
endfacet
facet normal 0.6 0 0.8
    outer loop
        vertex 1 0 0
        vertex 1 1 0
        vertex 0 1 0.5
    endloop
endfacet
endsolid square";
    let triangles = StlProcessor::read_stl(&text.as_bytes().to_vec()).unwrap();
    assert_eq!(
        triangles,
        vec![
            Triangle {
                normal: bits([0.0, 0.0, 1.0]),
                vertices: [bits([0.0, 0.0, 0.0]), bits([1.0, 0.0, 0.0]), bits([0.0, 1.0, 0.0])]
            },
            Triangle {
                normal: bits([0.6, 0.0, 0.8]),
                vertices: [bits([1.0, 0.0, 0.0]), bits([1.0, 1.0, 0.0]), bits([0.0, 1.0, 0.5])]
            },
        ]
    );
}

#[test]
fn binary_model_is_read() {
    let corners = [
        [[0.0f32, 0.0, 0.0], [2.5, 0.0, 0.0], [0.0, -1.0, 0.0]],
        [[2.5f32, 0.0, 0.0], [0.0, -1.0, 0.0], [7.0, 8.0, 9.0]],
    ];
    let triangles = StlProcessor::read_stl(&binary_model(&corners)).unwrap();
    assert_eq!(
        triangles,
        vec![
            Triangle {
                normal: bits([0.0, -1.0, 0.0]),
                vertices: [bits(corners[0][0]), bits(corners[0][1]), bits(corners[0][2])]
            },
            Triangle {
                normal: bits([0.0, -1.0, 1.0]),
                vertices: [bits(corners[1][0]), bits(corners[1][1]), bits(corners[1][2])]
            },
        ]
    );
}

#[test]
fn model_without_faces_is_read_as_empty() {
    let triangles = StlProcessor::read_stl(&binary_model(&[])).unwrap();
    assert!(triangles.is_empty());
}

#[test]
fn broken_model_is_refused() {
    let _processor = StlProcessor::new();
    assert_eq!(
        StlProcessor::read_stl(&Vec::new()).err(),
        Some(SliceError::InputContractViolation(ContractViolation::UnreadableSource))
    );
    let mut cut_short = binary_model(&[[[0.0, 0.0, 0.0], [1.0, 0.0, 0.0], [0.0, 1.0, 0.0]]]);
    cut_short.truncate(100);
    assert_eq!(
        StlProcessor::read_stl(&cut_short).err(),
        Some(SliceError::InputContractViolation(ContractViolation::UnreadableSource))
    );
    let text = "solid broken\nfacet normal 0 0 1\nouter loop\nvertex 0 0\n";
    assert_eq!(
        StlProcessor::read_stl(&text.as_bytes().to_vec()).err(),
        Some(SliceError::InputContractViolation(ContractViolation::UnreadableSource))
    );
}

#[test]
fn faces_get_corners_of_their_own() {
    let model = IndexedFaces {
        vertices: vec![[1, 1, 1], [2, 2, 2], [3, 3, 3], [4, 4, 4]],
        faces: vec![
            IndexedFace { normal: [7, 8, 9], vertices: [0, 1, 2] },
            IndexedFace { normal: [0, 0, 0], vertices: [2, 1, 3] },
        ],
    };
    assert_eq!(
        triangles_from_indexed(&model).unwrap(),
        vec![
            Triangle { normal: [7, 8, 9], vertices: [[1, 1, 1], [2, 2, 2], [3, 3, 3]] },
            Triangle { normal: [0, 0, 0], vertices: [[3, 3, 3], [2, 2, 2], [4, 4, 4]] },
        ]
    );
}

#[test]
fn face_that_names_no_position_is_refused() {
    let model = IndexedFaces {
        vertices: vec![[1, 1, 1], [2, 2, 2]],
        faces: vec![IndexedFace { normal: [0, 0, 0], vertices: [0, 1, 2] }],
    };
    assert_eq!(
        triangles_from_indexed(&model).err(),
        Some(SliceError::InputContractViolation(ContractViolation::VertexIndex))
    );
}
