use gameplay::entity::{Entity, Isometry, Kind};
use gameplay::queue::{spawn_enemy, Enemy, EnemySpawnCmd, SpawnQueue};
use gameplay::world::World;

fn at(x: f32, y: f32, z: f32) -> Isometry {
    Isometry::from_translation(x.to_bits(), y.to_bits(), z.to_bits())
}

fn whole(w: &World, en: &Enemy) -> bool {
    w.kind(en.root) == Some(Kind::Enemy)
        && w.children(en.root) == vec![en.body]
        && w.kind(en.body) == Some(Kind::EnemyBody)
        && w.parent(en.body) == Some(en.root)
}

#[test]
fn spawn_enemy_without_parent_makes_a_root_with_a_body() {
    let mut w = World::new();
    let cmd = EnemySpawnCmd { pos: at(1.0, 0.9, 5.0), parent: None };
    let en = spawn_enemy(&mut w, &cmd).unwrap();
    assert!(whole(&w, &en));
    assert_eq!(w.parent(en.root), None);
    assert_eq!(w.pose(en.root), Some(at(1.0, 0.9, 5.0)));
    assert_eq!(w.pose(en.body), Some(Isometry::identity()));
    assert_eq!(w.entities().len(), 2);
}

#[test]
fn spawn_enemy_below_parent_is_attached_at_once() {
    let mut w = World::new();
    let level = w.spawn(Kind::Level, Isometry::identity(), None).unwrap();
    let cmd = EnemySpawnCmd { pos: at(0.0, 0.9, 5.0), parent: Some(level) };
    let en = cmd.apply(&mut w).unwrap();
    assert!(whole(&w, &en));
    assert_eq!(w.parent(en.root), Some(level));
    assert_eq!(w.children(level), vec![en.root]);
}

#[test]
fn request_with_dead_parent_is_discarded() {
    let mut w = World::new();
    let level = w.spawn(Kind::Level, Isometry::identity(), None).unwrap();
    w.despawn(level);
    let cmd = EnemySpawnCmd { pos: at(0.0, 0.9, 5.0), parent: Some(level) };
    assert_eq!(spawn_enemy(&mut w, &cmd), None);
    assert!(w.entities().is_empty());
    assert_eq!(EnemySpawnCmd { pos: Isometry::identity(), parent: Some(Entity::from_raw(9, 9)) }.apply(&mut w), None);
}

#[test]
fn enqueue_creates_nothing_until_flush() {
    let mut w = World::new();
    let level = w.spawn(Kind::Level, Isometry::identity(), None).unwrap();
    let mut q = SpawnQueue::new();
    assert_eq!(q.len(), 0);
    q.enqueue(EnemySpawnCmd { pos: at(0.0, 0.9, 5.0), parent: Some(level) });
    q.enqueue(EnemySpawnCmd { pos: at(4.0, 0.9, 5.0), parent: Some(level) });
    assert_eq!(q.len(), 2);
    assert_eq!(w.entities(), vec![level]);
    assert!(w.entities_of_kind(Kind::Enemy).is_empty());
}

#[test]
fn flush_of_empty_queue_changes_nothing() {
    let mut w = World::new();
    let level = w.spawn(Kind::Level, Isometry::identity(), None).unwrap();
    let mut q = SpawnQueue::new();
    assert!(q.flush(&mut w).is_empty());
    assert_eq!(w.entities(), vec![level]);
}

#[test]
fn two_requests_below_one_parent_give_two_whole_enemies() {
    let first = at(0.0, 0.9, 5.0);
    let second = at(4.0, 0.9, 5.0);
    for (a, b) in [(first, second), (second, first)] {
        let mut w = World::new();
        let level = w.spawn(Kind::Level, Isometry::identity(), None).unwrap();
        let mut q = SpawnQueue::new();
        q.enqueue(EnemySpawnCmd { pos: a, parent: Some(level) });
        q.enqueue(EnemySpawnCmd { pos: b, parent: Some(level) });
        let outs = q.flush(&mut w);
        assert_eq!(q.len(), 0);
        assert_eq!(outs.len(), 2);
        let e1 = outs[0].unwrap();
        let e2 = outs[1].unwrap();
        assert_ne!(e1.root, e2.root);
        assert_ne!(e1.body, e2.body);
        assert!(whole(&w, &e1));
        assert!(whole(&w, &e2));
        assert_eq!(w.children(level), vec![e1.root, e2.root]);
        assert_eq!(w.entities_of_kind(Kind::Enemy), vec![e1.root, e2.root]);
        assert_eq!(w.entities_of_kind(Kind::EnemyBody).len(), 2);
        assert_eq!(w.pose(e1.root), Some(a));
        assert_eq!(w.pose(e2.root), Some(b));
        let mut poses = vec![w.pose(e1.root).unwrap(), w.pose(e2.root).unwrap()];
        poses.sort_by_key(|p| p.translation.0);
        assert_eq!(poses, vec![first, second]);
    }
}

#[test]
fn flush_keeps_order_and_reports_discarded_requests() {
    let mut w = World::new();
    let level = w.spawn(Kind::Level, Isometry::identity(), None).unwrap();
    let dead = w.spawn(Kind::Level, Isometry::identity(), None).unwrap();
    w.despawn(dead);
    let mut q = SpawnQueue::new();
    q.enqueue(EnemySpawnCmd { pos: at(1.0, 0.0, 0.0), parent: Some(level) });
    q.enqueue(EnemySpawnCmd { pos: at(2.0, 0.0, 0.0), parent: Some(dead) });
    q.enqueue(EnemySpawnCmd { pos: at(3.0, 0.0, 0.0), parent: None });
    let outs = q.flush(&mut w);
    assert_eq!(outs.len(), 3);
    assert!(outs[0].is_some());
    assert!(outs[1].is_none());
    assert!(outs[2].is_some());
    assert_eq!(w.children(level), vec![outs[0].unwrap().root]);
    assert_eq!(w.parent(outs[2].unwrap().root), None);
    assert_eq!(w.entities_of_kind(Kind::Enemy).len(), 2);
    assert_eq!(q.len(), 0);
    assert!(q.flush(&mut w).is_empty());
}

#[test]
fn a_request_may_name_an_enemy_made_earlier_in_the_same_world() {
    let mut w = World::new();
    let mut q = SpawnQueue::new();
    q.enqueue(EnemySpawnCmd { pos: Isometry::identity(), parent: None });
    let first = q.flush(&mut w)[0].unwrap();
    q.enqueue(EnemySpawnCmd { pos: Isometry::identity(), parent: Some(first.root) });
    let second = q.flush(&mut w)[0].unwrap();
    assert_eq!(w.children(first.root), vec![first.body, second.root]);
    assert!(w.is_descendant(second.body, first.root));
}
