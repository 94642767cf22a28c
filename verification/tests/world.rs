use gameplay::entity::{Entity, Isometry, Kind};
use gameplay::world::{World, WorldError};

fn pose(x: f32, y: f32, z: f32) -> Isometry {
    Isometry::from_translation(x.to_bits(), y.to_bits(), z.to_bits())
}

#[test]
fn new_world_is_empty() {
    let w = World::new();
    assert!(w.entities().is_empty());
    assert!(!w.contains(Entity::from_raw(0, 0)));
    assert_eq!(w.kind(Entity::from_raw(0, 0)), None);
    assert_eq!(w.parent(Entity::from_raw(3, 1)), None);
    assert!(w.children(Entity::from_raw(0, 0)).is_empty());
}

#[test]
fn identity_pose_has_unit_quaternion() {
    let p = Isometry::identity();
    assert_eq!(p.translation, (0, 0, 0));
    assert_eq!(p.rotation, (0, 0, 0, 1.0f32.to_bits()));
    assert_eq!(pose(0.0, 0.0, 0.0), p);
}

#[test]
fn spawn_root_is_live_and_alone() {
    let mut w = World::new();
    let e = w.spawn(Kind::Camera, pose(1.0, 2.0, 3.0), None).unwrap();
    assert!(w.contains(e));
    assert_eq!(w.kind(e), Some(Kind::Camera));
    assert_eq!(w.pose(e), Some(pose(1.0, 2.0, 3.0)));
    assert_eq!(w.parent(e), None);
    assert!(w.children(e).is_empty());
    assert_eq!(w.entities(), vec![e]);
}

#[test]
fn spawn_below_parent_appends_to_children() {
    let mut w = World::new();
    let root = w.spawn(Kind::Level, Isometry::identity(), None).unwrap();
    let a = w.spawn(Kind::Player, Isometry::identity(), Some(root)).unwrap();
    let b = w.spawn(Kind::Light, Isometry::identity(), Some(root)).unwrap();
    let c = w.spawn(Kind::Music, Isometry::identity(), Some(root)).unwrap();
    assert_eq!(w.children(root), vec![a, b, c]);
    assert_eq!(w.parent(a), Some(root));
    assert_eq!(w.parent(b), Some(root));
    assert_eq!(w.parent(c), Some(root));
    assert_ne!(a, b);
    assert_ne!(b, c);
}

#[test]
fn spawn_below_missing_parent_is_refused() {
    let mut w = World::new();
    let ghost = Entity::from_raw(7, 0);
    assert_eq!(w.spawn(Kind::Enemy, Isometry::identity(), Some(ghost)), Err(WorldError::Missing));
    assert!(w.entities().is_empty());
}

#[test]
fn despawn_takes_the_whole_subtree() {
    let mut w = World::new();
    let outside = w.spawn(Kind::Camera, Isometry::identity(), None).unwrap();
    let root = w.spawn(Kind::Level, Isometry::identity(), None).unwrap();
    let a = w.spawn(Kind::Player, Isometry::identity(), Some(root)).unwrap();
    let b = w.spawn(Kind::Enemy, Isometry::identity(), Some(root)).unwrap();
    let bb = w.spawn(Kind::EnemyBody, Isometry::identity(), Some(b)).unwrap();
    let aa = w.spawn(Kind::Enemy, Isometry::identity(), Some(a)).unwrap();
    assert!(w.despawn(root));
    for e in [root, a, b, bb, aa] {
        assert!(!w.contains(e));
        assert_eq!(w.kind(e), None);
    }
    assert!(w.contains(outside));
    assert_eq!(w.entities(), vec![outside]);
}

#[test]
fn despawn_of_inner_node_leaves_siblings_and_parent() {
    let mut w = World::new();
    let root = w.spawn(Kind::Level, Isometry::identity(), None).unwrap();
    let a = w.spawn(Kind::Enemy, Isometry::identity(), Some(root)).unwrap();
    let b = w.spawn(Kind::Enemy, Isometry::identity(), Some(root)).unwrap();
    let c = w.spawn(Kind::Enemy, Isometry::identity(), Some(root)).unwrap();
    let bb = w.spawn(Kind::EnemyBody, Isometry::identity(), Some(b)).unwrap();
    assert!(w.despawn(b));
    assert!(!w.contains(b));
    assert!(!w.contains(bb));
    assert_eq!(w.children(root), vec![a, c]);
    assert_eq!(w.parent(a), Some(root));
    assert_eq!(w.parent(c), Some(root));
}

#[test]
fn despawn_of_dead_handle_changes_nothing() {
    let mut w = World::new();
    let e = w.spawn(Kind::Overlay, Isometry::identity(), None).unwrap();
    assert!(w.despawn(e));
    assert!(!w.despawn(e));
    assert!(!w.despawn(Entity::from_raw(99, 0)));
    assert!(w.entities().is_empty());
}

#[test]
fn freed_slot_comes_back_under_a_new_generation() {
    let mut w = World::new();
    let first = w.spawn(Kind::Overlay, Isometry::identity(), None).unwrap();
    assert!(w.despawn(first));
    let second = w.spawn(Kind::Overlay, Isometry::identity(), None).unwrap();
    assert_eq!(second.index, first.index);
    assert_eq!(second.generation, first.generation + 1);
    assert_ne!(first, second);
    assert!(!w.contains(first));
    assert!(w.contains(second));
}

#[test]
fn stale_handle_is_not_a_parent() {
    let mut w = World::new();
    let old = w.spawn(Kind::Level, Isometry::identity(), None).unwrap();
    w.despawn(old);
    let new = w.spawn(Kind::Level, Isometry::identity(), None).unwrap();
    assert_eq!(w.spawn(Kind::Enemy, Isometry::identity(), Some(old)), Err(WorldError::Missing));
    assert!(w.children(new).is_empty());
}

#[test]
fn remove_parent_keeps_the_subtree() {
    let mut w = World::new();
    let root = w.spawn(Kind::Level, Isometry::identity(), None).unwrap();
    let player = w.spawn(Kind::Player, Isometry::identity(), Some(root)).unwrap();
    let cam = w.spawn(Kind::Camera, Isometry::identity(), Some(player)).unwrap();
    let below = w.spawn(Kind::Light, Isometry::identity(), Some(cam)).unwrap();
    assert!(w.remove_parent(cam));
    assert_eq!(w.parent(cam), None);
    assert!(w.children(player).is_empty());
    assert_eq!(w.children(cam), vec![below]);
    assert!(!w.remove_parent(cam));
    assert!(!w.remove_parent(Entity::from_raw(50, 0)));
    w.despawn(root);
    assert!(w.contains(cam));
    assert!(w.contains(below));
    assert!(!w.contains(player));
}

#[test]
fn remove_parent_of_middle_child_keeps_order() {
    let mut w = World::new();
    let root = w.spawn(Kind::Level, Isometry::identity(), None).unwrap();
    let a = w.spawn(Kind::Enemy, Isometry::identity(), Some(root)).unwrap();
    let b = w.spawn(Kind::Enemy, Isometry::identity(), Some(root)).unwrap();
    let c = w.spawn(Kind::Enemy, Isometry::identity(), Some(root)).unwrap();
    assert!(w.remove_parent(b));
    assert_eq!(w.children(root), vec![a, c]);
    assert!(w.contains(b));
}

#[test]
fn add_child_links_both_ways() {
    let mut w = World::new();
    let p = w.spawn(Kind::Player, Isometry::identity(), None).unwrap();
    let c = w.spawn(Kind::Camera, Isometry::identity(), None).unwrap();
    assert_eq!(w.add_child(p, c), Ok(()));
    assert_eq!(w.parent(c), Some(p));
    assert_eq!(w.children(p), vec![c]);
    assert!(w.is_descendant(c, p));
    assert!(!w.is_descendant(p, c));
    assert!(w.is_descendant(c, c));
}

#[test]
fn add_child_refuses_missing_handles() {
    let mut w = World::new();
    let p = w.spawn(Kind::Player, Isometry::identity(), None).unwrap();
    let gone = w.spawn(Kind::Camera, Isometry::identity(), None).unwrap();
    w.despawn(gone);
    assert_eq!(w.add_child(p, gone), Err(WorldError::Missing));
    assert_eq!(w.add_child(gone, p), Err(WorldError::Missing));
    assert!(w.children(p).is_empty());
}

#[test]
fn add_child_refuses_a_child_with_a_parent() {
    let mut w = World::new();
    let a = w.spawn(Kind::Level, Isometry::identity(), None).unwrap();
    let b = w.spawn(Kind::Level, Isometry::identity(), None).unwrap();
    let c = w.spawn(Kind::Player, Isometry::identity(), Some(a)).unwrap();
    assert_eq!(w.add_child(b, c), Err(WorldError::NotRoot));
    assert_eq!(w.parent(c), Some(a));
    assert!(w.children(b).is_empty());
}

#[test]
fn add_child_refuses_cycles() {
    let mut w = World::new();
    let top = w.spawn(Kind::Level, Isometry::identity(), None).unwrap();
    let mid = w.spawn(Kind::Player, Isometry::identity(), Some(top)).unwrap();
    let low = w.spawn(Kind::Camera, Isometry::identity(), Some(mid)).unwrap();
    assert_eq!(w.add_child(top, top), Err(WorldError::Cycle));
    assert_eq!(w.add_child(low, top), Err(WorldError::Cycle));
    assert_eq!(w.add_child(mid, top), Err(WorldError::Cycle));
    assert_eq!(w.parent(top), None);
    assert_eq!(w.children(low), Vec::<Entity>::new());
}

#[test]
fn set_pose_changes_only_the_pose() {
    let mut w = World::new();
    let root = w.spawn(Kind::Level, Isometry::identity(), None).unwrap();
    let e = w.spawn(Kind::Camera, Isometry::identity(), Some(root)).unwrap();
    assert!(w.set_pose(e, pose(0.0, 0.8, 0.0)));
    assert_eq!(w.pose(e), Some(pose(0.0, 0.8, 0.0)));
    assert_eq!(w.kind(e), Some(Kind::Camera));
    assert_eq!(w.parent(e), Some(root));
    assert_eq!(w.pose(root), Some(Isometry::identity()));
    assert!(!w.set_pose(Entity::from_raw(40, 2), pose(1.0, 1.0, 1.0)));
}

#[test]
fn entities_of_kind_lists_each_once() {
    let mut w = World::new();
    let root = w.spawn(Kind::Level, Isometry::identity(), None).unwrap();
    let a = w.spawn(Kind::Enemy, Isometry::identity(), Some(root)).unwrap();
    let _l = w.spawn(Kind::Light, Isometry::identity(), Some(root)).unwrap();
    let b = w.spawn(Kind::Enemy, Isometry::identity(), None).unwrap();
    assert_eq!(w.entities_of_kind(Kind::Enemy), vec![a, b]);
    assert_eq!(w.entities_of_kind(Kind::Level), vec![root]);
    assert!(w.entities_of_kind(Kind::Overlay).is_empty());
    assert_eq!(w.entities().len(), 4);
    w.despawn(a);
    assert_eq!(w.entities_of_kind(Kind::Enemy), vec![b]);
}

#[test]
fn deep_chain_is_destroyed_from_the_top() {
    let mut w = World::new();
    let top = w.spawn(Kind::Level, Isometry::identity(), None).unwrap();
    let mut cur = top;
    let mut all = vec![top];
    for _ in 0..200 {
        cur = w.spawn(Kind::Enemy, Isometry::identity(), Some(cur)).unwrap();
        all.push(cur);
    }
    assert!(w.is_descendant(cur, top));
    assert!(w.despawn(top));
    for e in all {
        assert!(!w.contains(e));
    }
    assert!(w.entities().is_empty());
}
