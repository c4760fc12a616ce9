use vstd::prelude::*;

use crate::entity::Entity;

verus! {

/// Whether an entity is drawn.
#[derive(Clone, Copy, Debug, PartialEq, Eq, Structural)]
pub struct Visibility {
    pub visible: bool,
}

impl Default for Visibility {
    fn default() -> (r: Visibility)
        ensures
            r.visible,
    {
        Visibility { visible: true }
    }
}

/// Handle of a mesh asset.
#[derive(Clone, Copy, Debug, PartialEq, Eq, Hash, Structural)]
pub struct MeshHandle {
    pub id: u32,
}

/// Handle of a material asset.
#[derive(Clone, Copy, Debug, PartialEq, Eq, Hash, Structural)]
pub struct MaterialHandle {
    pub id: u32,
}

/// Marks an entity as an instance of a mesh.
#[derive(Clone, Copy, Debug, PartialEq, Eq, Hash, Structural)]
pub struct InstanceOf(pub MeshHandle);

/// The parent of an entity in the scene hierarchy.
#[derive(Clone, Copy, Debug, PartialEq, Eq, Hash, Structural)]
pub struct ParentEntity(pub Entity);

/// What kind of scene object an entity renders as.
#[derive(Clone, Copy, Debug, PartialEq, Eq, Hash, Structural)]
pub enum ObjectType {
    Mesh,
    PointLight,
    DirectionalLight,
    LineSegments,
    Group,
}

impl ObjectType {
    /// The wire code of an object type.
    pub open spec fn spec_code(self) -> u8 {
        match self {
            ObjectType::Mesh => 0,
            ObjectType::PointLight => 1,
            ObjectType::DirectionalLight => 2,
            ObjectType::LineSegments => 3,
            ObjectType::Group => 4,
        }
    }

    /// The wire code of an object type: `Mesh` 0, `PointLight` 1,
    /// `DirectionalLight` 2, `LineSegments` 3, `Group` 4.
    pub fn as_u8(self) -> (r: u8)
        ensures
            r == self.spec_code(),
    {
        match self {
            ObjectType::Mesh => 0,
            ObjectType::PointLight => 1,
            ObjectType::DirectionalLight => 2,
            ObjectType::LineSegments => 3,
            ObjectType::Group => 4,
        }
    }
}

/// Distinct object types have distinct codes.
pub proof fn lemma_object_codes_distinct(a: ObjectType, b: ObjectType)
    requires
        a != b,
    ensures
        a.spec_code() != b.spec_code(),
{
}

impl Default for ObjectType {
    fn default() -> (r: ObjectType)
        ensures
            r == ObjectType::Mesh,
    {
        ObjectType::Mesh
    }
}

} // verus!
