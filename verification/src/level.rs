//! The level assembler: builds the entity graph of one play session.

use vstd::prelude::*;
use crate::entity::{Entity, Isometry, Kind, Node};
use crate::queue::{EnemySpawnCmd, SpawnQueue};
use crate::tree::{
    Nodes, attached, child_of, descends, detached, lemma_attached_linked, lemma_descends_down,
    lemma_detached_linked, lemma_root_descends, lemma_spawned_linked, linked, lists, spawned,
};
use crate::world::World;

verus! {

/// Where the asset server finds the level's background track.
pub const MUSIC_PATH: &'static str = "audio/music/Fluffing A Duck.ogg";

/// Where the asset server finds the level's geometry.
pub const SCENE_PATH: &'static str = "models/scene.glb";

/// Which scene of the geometry file is the level.
pub const SCENE_INDEX: usize = 0;

/// The resources of a level, each by the id of its handle. The record is
/// made once, when every one of them has been loaded, and is only read
/// afterwards.
#[derive(Clone, Debug, PartialEq, Eq)]
pub struct LevelAssets {
    pub music: u64,
    pub sound_effects: Vec<u64>,
    pub scene: u64,
}

/// The tuning of a level: where its entities stand at the start.
#[derive(Clone, Debug, PartialEq, Eq)]
pub struct LevelConfig {
    /// The player in the level's frame.
    pub player: Isometry,
    /// The camera in the player's frame: the eye height.
    pub camera: Isometry,
    /// The directional light.
    pub light: Isometry,
    /// One enemy for each pose, in the level's frame.
    pub enemies: Vec<Isometry>,
}

/// The entities that the assembler creates at once.
#[derive(Clone, Copy, Debug, PartialEq, Eq, Structural)]
pub struct Level {
    pub root: Entity,
    pub player: Entity,
    pub light: Entity,
    pub music: Entity,
}

/// Why a level was not assembled. Nothing has changed then.
#[derive(Clone, Copy, Debug, PartialEq, Eq, Structural)]
pub enum AssemblyError {
    /// The level's assets have not been resolved.
    AssetsNotReady,
    /// The camera handle does not name a live entity.
    CameraMissing,
}

impl Level {
    /// The four handles are new and differ from each other.
    pub open spec fn fresh(self, issued: Set<Entity>) -> bool {
        &&& !issued.contains(self.root)
        &&& !issued.contains(self.player)
        &&& !issued.contains(self.light)
        &&& !issued.contains(self.music)
        &&& self.root != self.player
        &&& self.root != self.light
        &&& self.root != self.music
        &&& self.player != self.light
        &&& self.player != self.music
        &&& self.light != self.music
    }

    pub open spec fn handles(self) -> Set<Entity> {
        set![self.root, self.player, self.light, self.music]
    }
}

/// One spawn request below `root` for each pose.
pub open spec fn enemy_requests(poses: Seq<Isometry>, root: Entity) -> Seq<EnemySpawnCmd> {
    Seq::new(poses.len(), |i: int| EnemySpawnCmd { pos: poses[i], parent: Some(root) })
}

/// The hierarchy after the level `lvl` has been assembled around `camera`:
/// a root with the player, the light and the music anchor as its children,
/// in this order, and the camera as the player's child at the eye height.
pub open spec fn assembled(m: Nodes, camera: Entity, config: LevelConfig, lvl: Level) -> Nodes {
    let m1 = spawned(m, lvl.root, Kind::Level, Isometry::identity(), None);
    let m2 = spawned(m1, lvl.player, Kind::Player, config.player, Some(lvl.root));
    let m3 = spawned(m2, lvl.light, Kind::Light, config.light, Some(lvl.root));
    let m4 = spawned(m3, lvl.music, Kind::Music, Isometry::identity(), Some(lvl.root));
    let m5 = attached(detached(m4, camera), camera, lvl.player);
    m5.insert(camera, Node { pose: config.camera, ..m5[camera] })
}

/// Builds a level in `world` and queues one spawn request for each enemy of
/// `config`, to be carried out at the next flush point. The camera is moved
/// below the player, from wherever it was.
///
/// Assembling before the assets have been resolved is reported as an error,
/// and so is a camera that does not exist.
pub fn spawn_level(
    world: &mut World,
    queue: &mut SpawnQueue,
    camera: Entity,
    assets: Option<&LevelAssets>,
    config: &LevelConfig,
) -> (r: Result<Level, AssemblyError>)
    requires
        old(world).wf(),
    ensures
        final(world).wf(),
        match r {
            Ok(lvl) => {
                &&& assets is Some
                &&& old(world)@.dom().contains(camera)
                &&& lvl.fresh(old(world).issued())
                &&& final(world).issued() == old(world).issued().union(lvl.handles())
                &&& final(world)@ == assembled(old(world)@, camera, *config, lvl)
                &&& final(queue)@ == old(queue)@ + enemy_requests(config.enemies@, lvl.root)
            },
            Err(e) => {
                &&& e == if assets is None {
                    AssemblyError::AssetsNotReady
                } else {
                    AssemblyError::CameraMissing
                }
                &&& assets is None || !old(world)@.dom().contains(camera)
                &&& final(world)@ == old(world)@
                &&& final(world).issued() == old(world).issued()
                &&& final(queue)@ == old(queue)@
            },
        },
{
    if assets.is_none() {
        return Err(AssemblyError::AssetsNotReady);
    }
    if !world.contains(camera) {
        return Err(AssemblyError::CameraMissing);
    }
    let ghost m0 = world@;
    let ghost i0 = world.issued();
    proof {
        world.lemma_wf();
    }
    let root = match world.spawn(Kind::Level, Isometry::identity(), None) {
        Ok(e) => e,
        Err(_) => {
            assert(false);
            camera
        },
    };
    let player = match world.spawn(Kind::Player, config.player, Some(root)) {
        Ok(e) => e,
        Err(_) => {
            assert(false);
            camera
        },
    };
    let light = match world.spawn(Kind::Light, config.light, Some(root)) {
        Ok(e) => e,
        Err(_) => {
            assert(false);
            camera
        },
    };
    let music = match world.spawn(Kind::Music, Isometry::identity(), Some(root)) {
        Ok(e) => e,
        Err(_) => {
            assert(false);
            camera
        },
    };
    let lvl = Level { root, player, light, music };
    let ghost m4 = world@;
    assert(world.issued() =~= i0.union(lvl.handles()));
    world.remove_parent(camera);
    let ghost m4d = world@;
    proof {
        assert(m4d == detached(m4, camera));
        assert(m4d[player].parent == Some(root));
        assert(m4d[root].parent is None);
        lemma_root_descends(m4d, root, camera);
        if descends(m4d, player, camera) {
            lemma_descends_down(m4d, player, camera);
        }
        assert(World::can_add_child(m4d, player, camera) is Ok);
    }
    let linked = world.add_child(player, camera);
    world.set_pose(camera, config.camera);
    let ghost q0 = queue@;
    let n = config.enemies.len();
    let mut i: usize = 0;
    while i < n
        invariant
            n == config.enemies@.len(),
            0 <= i <= n,
            queue@ == q0 + enemy_requests(config.enemies@, root).take(i as int),
        decreases n - i,
    {
        let cmd = EnemySpawnCmd { pos: config.enemies[i], parent: Some(root) };
        queue.enqueue(cmd);
        proof {
            let all = enemy_requests(config.enemies@, root);
            assert(all.take(i + 1) == all.take(i as int).push(all[i as int]));
            assert(q0 + all.take(i + 1) == (q0 + all.take(i as int)).push(cmd));
        }
        i = i + 1;
    }
    proof {
        let all = enemy_requests(config.enemies@, root);
        assert(all.take(n as int) == all);
    }
    Ok(lvl)
}

/// Assembling a level keeps the hierarchy consistent. The entities that were
/// there keep their kind, and all but the camera keep their parent; the new
/// ones are the level's four.
pub proof fn lemma_assembled(m: Nodes, camera: Entity, config: LevelConfig, lvl: Level, issued: Set<Entity>)
    requires
        linked(m),
        m.dom().subset_of(issued),
        m.dom().contains(camera),
        lvl.fresh(issued),
    ensures
        linked(assembled(m, camera, config, lvl)),
        assembled(m, camera, config, lvl).dom() == m.dom().union(lvl.handles()),
        assembled(m, camera, config, lvl)[lvl.root].kind == Kind::Level,
        assembled(m, camera, config, lvl)[lvl.root].parent is None,
        assembled(m, camera, config, lvl)[lvl.player].kind == Kind::Player,
        assembled(m, camera, config, lvl)[lvl.player].parent == Some(lvl.root),
        assembled(m, camera, config, lvl)[lvl.light].kind == Kind::Light,
        assembled(m, camera, config, lvl)[lvl.music].kind == Kind::Music,
        assembled(m, camera, config, lvl)[camera].parent == Some(lvl.player),
        forall|x: Entity|
            #![trigger m.dom().contains(x)]
            m.dom().contains(x) ==> assembled(m, camera, config, lvl)[x].kind == m[x].kind && (x
                != camera ==> assembled(m, camera, config, lvl)[x].parent == m[x].parent),
{
    let m1 = spawned(m, lvl.root, Kind::Level, Isometry::identity(), None);
    let m2 = spawned(m1, lvl.player, Kind::Player, config.player, Some(lvl.root));
    let m3 = spawned(m2, lvl.light, Kind::Light, config.light, Some(lvl.root));
    let m4 = spawned(m3, lvl.music, Kind::Music, Isometry::identity(), Some(lvl.root));
    let m4d = detached(m4, camera);
    let m5 = attached(m4d, camera, lvl.player);
    let m6 = m5.insert(camera, Node { pose: config.camera, ..m5[camera] });
    lemma_spawned_linked(m, lvl.root, Kind::Level, Isometry::identity(), None);
    lemma_spawned_linked(m1, lvl.player, Kind::Player, config.player, Some(lvl.root));
    lemma_spawned_linked(m2, lvl.light, Kind::Light, config.light, Some(lvl.root));
    lemma_spawned_linked(m3, lvl.music, Kind::Music, Isometry::identity(), Some(lvl.root));
    lemma_detached_linked(m4, camera);
    assert(m4[camera] == m[camera]);
    if let Some(p) = m[camera].parent {
        assert(child_of(m, camera, p));
        assert(lists(m, p, camera));
    }
    assert(m4d[camera].parent is None);
    assert(m4d.dom().contains(lvl.player));
    lemma_attached_linked(m4d, camera, lvl.player);
    assert(m6.dom() =~= m.dom().union(lvl.handles()));
    assert(linked(m6)) by {
        assert forall|c: Entity, p: Entity| #[trigger] child_of(m6, c, p) implies lists(
            m6,
            p,
            c,
        ) by {
            assert(child_of(m5, c, p));
            assert(lists(m5, p, c));
        }
        assert forall|p: Entity, c: Entity| #[trigger] lists(m6, p, c) implies child_of(
            m6,
            c,
            p,
        ) by {
            assert(lists(m5, p, c));
            assert(child_of(m5, c, p));
        }
        assert forall|x: Entity| #[trigger] m6.dom().contains(x) implies m6[x].children.no_duplicates()
            && m6[x].parent != Some(x) by {
            assert(m5.dom().contains(x));
        }
    }
}

} // verus!
