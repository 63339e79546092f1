//! Reading triangles from the content of a model file.

use vstd::prelude::*;
use crate::error::{ContractViolation, SliceError};
use crate::mesh::Triangle;

verus! {

/// The error type of `std::io`, which sources of triangles return. Nothing
/// is known of what a value of it holds.
#[verifier::external_type_specification]
#[verifier::external_body]
pub struct ExIoError(std::io::Error);

/// A source of triangles that is found by a name, such as a file.
pub trait StlProcessorTrait {
    /// `outcome` is something that reading the model called `filename` can
    /// give. A source that says nothing of itself can give anything.
    open spec fn can_read(
        &self,
        filename: Seq<char>,
        outcome: Result<Vec<Triangle>, std::io::Error>,
    ) -> bool {
        true
    }

    /// Reads the triangles of the model called `filename`.
    fn read_stl(&self, filename: &str) -> (outcome: Result<Vec<Triangle>, std::io::Error>)
        ensures
            self.can_read(filename@, outcome),
    ;
}


/// The reader of model files.
#[derive(Clone, Copy, PartialEq, Eq, Structural, Debug)]
pub struct StlProcessor {}

/// A face of a model as a file holds it: its normal, given by the bits of
/// its coordinates, and the numbers of its three corners.
#[derive(Clone, Copy, PartialEq, Eq, Hash, Debug)]
pub struct IndexedFace {
    pub normal: [u32; 3],
    pub vertices: [usize; 3],
}

/// A model as a file holds it: the distinct corner positions, each given by
/// the bits of its coordinates, and the faces.
pub struct IndexedFaces {
    pub vertices: Vec<[u32; 3]>,
    pub faces: Vec<IndexedFace>,
}

/// What a model file holds.
pub struct FileContent {
    pub vertices: Seq<[u32; 3]>,
    pub faces: Seq<IndexedFace>,
}

/// What `stl_io::read_stl` reads from a file with the content `bytes`, or
/// `None` if it reports an error.
pub uninterp spec fn stl_content(bytes: Seq<u8>) -> Option<FileContent>;

/// Reads a model by `stl_io::read_stl` from bytes in memory, and hands on
/// the positions and, of every face, the normal and the corner numbers as
/// they were read.
///
/// Taken on trust from that function's source: it returns for every input,
/// and what it returns depends on the bytes alone.
#[verifier::external_body]
fn read_indexed(bytes: &Vec<u8>) -> (read: Result<IndexedFaces, std::io::Error>)
    ensures
        match read {
            Ok(model) => stl_content(bytes@) == Some(
                FileContent { vertices: model.vertices@, faces: model.faces@ },
            ),
            Err(_) => stl_content(bytes@) is None,
        },
{
    let model = stl_io::read_stl(&mut std::io::Cursor::new(bytes.as_slice()))?;
    let bits = |v: &stl_io::Vertex| [v.0[0].to_bits(), v.0[1].to_bits(), v.0[2].to_bits()];
    Ok(
        IndexedFaces {
            vertices: model.vertices.iter().map(bits).collect(),
            faces: model.faces.iter().map(
                |f| IndexedFace { normal: bits(&f.normal), vertices: f.vertices },
            ).collect(),
        },
    )
}

/// Every face names three of the positions.
pub open spec fn faces_in_range(content: FileContent) -> bool {
    forall|k: int, c: int|
        #![trigger content.faces[k].vertices[c]]
        0 <= k < content.faces.len() && 0 <= c < 3 ==> content.faces[k].vertices[c]
            < content.vertices.len()
}

/// `triangles` are the faces of `content`, in their order, each with its
/// normal and with corners of its own.
pub open spec fn lists_faces(content: FileContent, triangles: Seq<Triangle>) -> bool {
    &&& triangles.len() == content.faces.len()
    &&& forall|k: int|
        0 <= k < triangles.len() ==> (#[trigger] triangles[k]).normal == content.faces[k].normal
    &&& forall|k: int, c: int|
        #![trigger triangles[k].vertices[c]]
        0 <= k < triangles.len() && 0 <= c < 3 ==> triangles[k].vertices[c]
            == content.vertices[content.faces[k].vertices[c] as int]
}

/// Gives each face of a model corners of its own.
///
/// Fails if a face names a position that the model does not have.
pub fn triangles_from_indexed(model: &IndexedFaces) -> (listed: Result<Vec<Triangle>, SliceError>)
    ensures
        match listed {
            Ok(triangles) => {
                &&& faces_in_range(FileContent { vertices: model.vertices@, faces: model.faces@ })
                &&& lists_faces(
                    FileContent { vertices: model.vertices@, faces: model.faces@ },
                    triangles@,
                )
            },
            Err(e) => {
                &&& !faces_in_range(FileContent { vertices: model.vertices@, faces: model.faces@ })
                &&& e == SliceError::InputContractViolation(ContractViolation::VertexIndex)
            },
        },
{
    let ghost content = FileContent { vertices: model.vertices@, faces: model.faces@ };
    let mut triangles: Vec<Triangle> = Vec::new();
    let mut k: usize = 0;
    while k < model.faces.len()
        invariant
            k <= model.faces.len(),
            content == (FileContent { vertices: model.vertices@, faces: model.faces@ }),
            triangles.len() == k,
            forall|t: int, c: int|
                #![trigger content.faces[t].vertices[c]]
                0 <= t < k && 0 <= c < 3 ==> content.faces[t].vertices[c] < content.vertices.len(),
            forall|t: int| 0 <= t < k ==> (#[trigger] triangles[t]).normal == content.faces[t].normal,
            forall|t: int, c: int|
                #![trigger triangles[t].vertices[c]]
                0 <= t < k && 0 <= c < 3 ==> triangles[t].vertices[c]
                    == content.vertices[content.faces[t].vertices[c] as int],
        decreases model.faces.len() - k,
    {
        let face = model.faces[k];
        let corners = face.vertices;
        if corners[0] >= model.vertices.len() || corners[1] >= model.vertices.len() || corners[2]
            >= model.vertices.len() {
            assert(!(content.faces[k as int].vertices[0] < content.vertices.len()) || !(
            content.faces[k as int].vertices[1] < content.vertices.len()) || !(
            content.faces[k as int].vertices[2] < content.vertices.len()));
            return Err(SliceError::InputContractViolation(ContractViolation::VertexIndex));
        }
        triangles.push(
            Triangle {
                normal: face.normal,
                vertices: [
                    model.vertices[corners[0]],
                    model.vertices[corners[1]],
                    model.vertices[corners[2]],
                ],
            },
        );
        k += 1;
    }
    Ok(triangles)
}

/// What reading a model file with the content `bytes` gives: the triangles of
/// its faces, or the reason why there are none.
pub open spec fn is_reading(bytes: Seq<u8>, outcome: Result<Vec<Triangle>, SliceError>) -> bool {
    match outcome {
        Ok(triangles) => stl_content(bytes) matches Some(content) && faces_in_range(content)
            && lists_faces(content, triangles@),
        Err(e) => match stl_content(bytes) {
            Some(content) => !faces_in_range(content) && e == SliceError::InputContractViolation(
                ContractViolation::VertexIndex,
            ),
            None => e == SliceError::InputContractViolation(ContractViolation::UnreadableSource),
        },
    }
}

impl StlProcessor {
    /// A reader of model files.
    pub fn new() -> (processor: StlProcessor) {
        StlProcessor {  }
    }

    /// Reads the triangles of a model from the content of its file, in
    /// either form of the format.
    pub fn read_stl(bytes: &Vec<u8>) -> (outcome: Result<Vec<Triangle>, SliceError>)
        ensures
            is_reading(bytes@, outcome),
    {
        match read_indexed(bytes) {
            Ok(model) => triangles_from_indexed(&model),
            Err(_) => Err(SliceError::InputContractViolation(ContractViolation::UnreadableSource)),
        }
    }
}

} // verus!
