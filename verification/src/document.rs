//! What the library reads of a scene document.

use crate::matrix::Matrix4;
use vstd::prelude::*;

verus! {

/// Parent index of a joint that has no parent.
pub const ROOT_JOINT_PARENT_INDEX: u8 = 255;

/// One joint of a scene's joint hierarchy.
#[derive(Debug)]
pub struct Joint {
    /// Full name of the joint.
    pub name: String,
    /// Position of the parent in the joint list, or
    /// `ROOT_JOINT_PARENT_INDEX`.
    pub parent_index: u8,
}

/// One influence of a joint on a vertex.
#[derive(Clone, Copy, Debug)]
pub struct VertexWeight {
    /// Position of the vertex in the mesh.
    pub vertex: usize,
    /// Position of the joint in the bind data's joint names.
    pub joint: u8,
    /// Position of the weight in the bind data's weights.
    pub weight: usize,
}

/// What binds a mesh to a skeleton.
#[derive(Debug)]
pub struct BindData {
    pub skeleton_name: Option<String>,
    /// Short names of the joints that the mesh is bound to.
    pub joint_names: Vec<String>,
    pub vertex_weights: Vec<VertexWeight>,
    /// Weight values, as binary32 bit patterns.
    pub weights: Vec<u32>,
    /// One inverse bind matrix for each of `joint_names`.
    pub inverse_bind_poses: Vec<Matrix4>,
}

/// The sample times of one joint's animation track.
#[derive(Debug)]
pub struct Track {
    /// Path of the animated property; its first segment names the joint.
    pub target: String,
    /// Time of each sample, in ticks.
    pub sample_times: Vec<i64>,
}

/// A list of triangles, each corner given by its positions in the owning
/// object's tables.
#[derive(Debug)]
pub struct Triangles {
    pub vertices: Vec<(usize, usize, usize)>,
    pub tex_vertices: Option<Vec<(usize, usize, usize)>>,
    pub normals: Option<Vec<(usize, usize, usize)>>,
}

/// A geometric primitive of a mesh.
#[derive(Debug)]
pub enum PrimitiveElement {
    Polylist,
    Triangles(Triangles),
}

/// A mesh object: its tables of numbers, as binary32 bit patterns, and the
/// primitives that index them.
#[derive(Debug)]
pub struct Object {
    pub vertices: Vec<[u32; 3]>,
    pub tex_vertices: Vec<[u32; 2]>,
    pub normals: Vec<[u32; 3]>,
    /// The primitives of the object's geometries, in their order.
    pub mesh: Vec<PrimitiveElement>,
}

/// What the library reads of a scene document. A part that the scene lacks
/// is `None`.
#[derive(Debug)]
pub struct Document {
    pub objects: Option<Vec<Object>>,
    /// The joints of each skeleton, parents before children.
    pub skeletons: Option<Vec<Vec<Joint>>>,
    pub bind_data: Option<Vec<BindData>>,
    pub animations: Option<Vec<Track>>,
}

} // verus!
