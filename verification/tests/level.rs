use gameplay::entity::{Entity, Isometry, Kind};
use gameplay::level::{spawn_level, AssemblyError, LevelAssets, LevelConfig, MUSIC_PATH, SCENE_INDEX, SCENE_PATH};
use gameplay::queue::SpawnQueue;
use gameplay::world::World;

fn at(x: f32, y: f32, z: f32) -> Isometry {
    Isometry::from_translation(x.to_bits(), y.to_bits(), z.to_bits())
}

fn config() -> LevelConfig {
    LevelConfig {
        player: at(0.0, 1.8, 2.0),
        camera: at(0.0, 0.8, 0.0),
        light: Isometry { translation: (0, 0, 0), rotation: (1, 2, 3, 4) },
        enemies: vec![at(0.0, 0.9, 5.0), at(4.0, 0.9, 5.0)],
    }
}

fn assets() -> LevelAssets {
    LevelAssets { music: 11, sound_effects: vec![], scene: 12 }
}

#[test]
fn asset_paths_are_fixed() {
    assert_eq!(MUSIC_PATH, "audio/music/Fluffing A Duck.ogg");
    assert_eq!(SCENE_PATH, "models/scene.glb");
    assert_eq!(SCENE_INDEX, 0);
}

#[test]
fn assembling_without_assets_is_reported() {
    let mut w = World::new();
    let cam = w.spawn(Kind::Camera, Isometry::identity(), None).unwrap();
    let mut q = SpawnQueue::new();
    assert_eq!(spawn_level(&mut w, &mut q, cam, None, &config()), Err(AssemblyError::AssetsNotReady));
    assert_eq!(w.entities(), vec![cam]);
    assert_eq!(q.len(), 0);
}

#[test]
fn assembling_without_camera_is_reported() {
    let mut w = World::new();
    let mut q = SpawnQueue::new();
    let a = assets();
    assert_eq!(
        spawn_level(&mut w, &mut q, Entity::from_raw(0, 0), Some(&a), &config()),
        Err(AssemblyError::CameraMissing)
    );
    assert!(w.entities().is_empty());
    assert_eq!(q.len(), 0);
    assert_eq!(
        spawn_level(&mut w, &mut q, Entity::from_raw(0, 0), None, &config()),
        Err(AssemblyError::AssetsNotReady)
    );
}

#[test]
fn assembled_level_has_the_described_shape() {
    let mut w = World::new();
    let cam = w.spawn(Kind::Camera, Isometry::identity(), None).unwrap();
    let mut q = SpawnQueue::new();
    let a = assets();
    let lvl = spawn_level(&mut w, &mut q, cam, Some(&a), &config()).unwrap();
    assert_eq!(w.kind(lvl.root), Some(Kind::Level));
    assert_eq!(w.kind(lvl.player), Some(Kind::Player));
    assert_eq!(w.kind(lvl.light), Some(Kind::Light));
    assert_eq!(w.kind(lvl.music), Some(Kind::Music));
    assert_eq!(w.parent(lvl.root), None);
    assert_eq!(w.children(lvl.root), vec![lvl.player, lvl.light, lvl.music]);
    assert_eq!(w.children(lvl.player), vec![cam]);
    assert_eq!(w.parent(cam), Some(lvl.player));
    assert_eq!(w.pose(cam), Some(at(0.0, 0.8, 0.0)));
    assert_eq!(w.pose(lvl.player), Some(at(0.0, 1.8, 2.0)));
    assert_eq!(w.pose(lvl.light), Some(config().light));
    assert_eq!(w.pose(lvl.root), Some(Isometry::identity()));
    assert_eq!(w.pose(lvl.music), Some(Isometry::identity()));
    assert_eq!(w.entities().len(), 5);
    assert_eq!(w.entities_of_kind(Kind::Level), vec![lvl.root]);
}

#[test]
fn enemies_are_requested_not_created() {
    let mut w = World::new();
    let cam = w.spawn(Kind::Camera, Isometry::identity(), None).unwrap();
    let mut q = SpawnQueue::new();
    let a = assets();
    let lvl = spawn_level(&mut w, &mut q, cam, Some(&a), &config()).unwrap();
    assert_eq!(q.len(), 2);
    assert!(w.entities_of_kind(Kind::Enemy).is_empty());
    let outs = q.flush(&mut w);
    let e1 = outs[0].unwrap();
    let e2 = outs[1].unwrap();
    assert_eq!(w.children(lvl.root), vec![lvl.player, lvl.light, lvl.music, e1.root, e2.root]);
    assert_eq!(w.pose(e1.root), Some(at(0.0, 0.9, 5.0)));
    assert_eq!(w.pose(e2.root), Some(at(4.0, 0.9, 5.0)));
    assert_eq!(w.children(e1.root), vec![e1.body]);
    assert_eq!(w.children(e2.root), vec![e2.body]);
}

#[test]
fn camera_is_moved_from_an_earlier_parent() {
    let mut w = World::new();
    let holder = w.spawn(Kind::Light, Isometry::identity(), None).unwrap();
    let cam = w.spawn(Kind::Camera, Isometry::identity(), Some(holder)).unwrap();
    let mut q = SpawnQueue::new();
    let a = assets();
    let lvl = spawn_level(&mut w, &mut q, cam, Some(&a), &config()).unwrap();
    assert!(w.children(holder).is_empty());
    assert_eq!(w.parent(cam), Some(lvl.player));
}

#[test]
fn level_without_enemies_queues_nothing() {
    let mut w = World::new();
    let cam = w.spawn(Kind::Camera, Isometry::identity(), None).unwrap();
    let mut q = SpawnQueue::new();
    let a = assets();
    let cfg = LevelConfig { enemies: vec![], ..config() };
    spawn_level(&mut w, &mut q, cam, Some(&a), &cfg).unwrap();
    assert_eq!(q.len(), 0);
}
