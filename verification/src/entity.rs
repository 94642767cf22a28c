//! Entity handles and the data attached to an entity.

use vstd::prelude::*;

verus! {

/// A stable handle to an entity: the index of its slot and the generation the
/// slot had when the handle was issued. A handle whose generation no longer
/// matches its slot is stale and names nothing.
#[derive(Clone, Copy, Debug, PartialEq, Eq, Hash, Structural)]
pub struct Entity {
    pub index: usize,
    pub generation: u64,
}

impl Entity {
    pub fn from_raw(index: usize, generation: u64) -> (e: Entity)
        ensures
            e == (Entity { index, generation }),
    {
        Entity { index, generation }
    }
}

/// What an entity is.
#[derive(Clone, Copy, Debug, PartialEq, Eq, Hash, Structural)]
pub enum Kind {
    /// The view camera. It outlives every level.
    Camera,
    /// Root of one play session's content.
    Level,
    Player,
    /// The directional light of the level.
    Light,
    /// Anchor of the level's background track.
    Music,
    Enemy,
    /// Mesh, material and collision capsule of an enemy, held by one child
    /// of the enemy entity.
    EnemyBody,
    /// Full-screen overlay shown behind a menu while the game is paused.
    Overlay,
}

/// Bit pattern of the single-precision number 1.0.
pub const ONE_BITS: u32 = 0x3F80_0000;

/// Position and orientation. Each component is the bit pattern of a
/// single-precision float; the library carries them and never computes with
/// them.
#[derive(Clone, Copy, Debug, PartialEq, Eq)]
pub struct Isometry {
    /// x, y, z
    pub translation: (u32, u32, u32),
    /// Quaternion x, y, z, w
    pub rotation: (u32, u32, u32, u32),
}

impl Isometry {
    pub open spec fn spec_identity() -> Isometry {
        Isometry { translation: (0, 0, 0), rotation: (0, 0, 0, ONE_BITS) }
    }

    /// No translation, no rotation.
    #[verifier::when_used_as_spec(spec_identity)]
    pub fn identity() -> (p: Isometry)
        ensures
            p == Isometry::spec_identity(),
    {
        Isometry { translation: (0, 0, 0), rotation: (0, 0, 0, ONE_BITS) }
    }

    pub fn from_translation(x: u32, y: u32, z: u32) -> (p: Isometry)
        ensures
            p == (Isometry { translation: (x, y, z), rotation: (0, 0, 0, ONE_BITS) }),
    {
        Isometry { translation: (x, y, z), rotation: (0, 0, 0, ONE_BITS) }
    }
}

/// The abstract value of one live entity.
pub struct Node {
    pub kind: Kind,
    pub pose: Isometry,
    /// The entity that owns this one, if any.
    pub parent: Option<Entity>,
    /// The entities this one owns, in the order they were attached.
    pub children: Seq<Entity>,
}

} // verus!
