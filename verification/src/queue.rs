//! Deferred spawning of enemies: requests are collected while a tick runs and
//! carried out together, in the order they came, at the tick's flush point.

use vstd::prelude::*;
use crate::entity::{Entity, Isometry, Kind};
use crate::tree::{Nodes, lemma_spawned_linked, linked, spawned};
use crate::world::World;

verus! {

/// A request to create an enemy at a place, below `parent` if one is given.
#[derive(Clone, Copy, Debug, PartialEq, Eq)]
pub struct EnemySpawnCmd {
    pub pos: Isometry,
    pub parent: Option<Entity>,
}

/// The two entities that make up an enemy: the enemy itself and the child
/// that carries its mesh, material and collision capsule.
#[derive(Clone, Copy, Debug, PartialEq, Eq, Structural)]
pub struct Enemy {
    pub root: Entity,
    pub body: Entity,
}

/// The request can be carried out: its parent, if it names one, is live.
pub open spec fn completes(m: Nodes, cmd: EnemySpawnCmd) -> bool {
    cmd.parent matches Some(p) ==> m.dom().contains(p)
}

/// Both handles are new and they differ.
pub open spec fn fresh(issued: Set<Entity>, en: Enemy) -> bool {
    &&& !issued.contains(en.root)
    &&& !issued.contains(en.body)
    &&& en.root != en.body
}

/// The hierarchy after `cmd` has produced `en`: the enemy stands below the
/// requested parent and holds its body.
pub open spec fn with_enemy(m: Nodes, cmd: EnemySpawnCmd, en: Enemy) -> Nodes {
    spawned(
        spawned(m, en.root, Kind::Enemy, cmd.pos, cmd.parent),
        en.body,
        Kind::EnemyBody,
        Isometry::identity(),
        Some(en.root),
    )
}

/// The hierarchy after the requests `cmds` have been carried out in order
/// with the outcomes `outs`, where `None` stands for a discarded request.
pub open spec fn flushed(m: Nodes, cmds: Seq<EnemySpawnCmd>, outs: Seq<Option<Enemy>>) -> Nodes
    decreases cmds.len(),
{
    if cmds.len() == 0 {
        m
    } else {
        let before = flushed(m, cmds.drop_last(), outs.drop_last());
        match outs.last() {
            Some(en) => with_enemy(before, cmds.last(), en),
            None => before,
        }
    }
}

/// The handles issued once the outcomes `outs` have come about.
pub open spec fn flushed_issued(issued: Set<Entity>, outs: Seq<Option<Enemy>>) -> Set<Entity>
    decreases outs.len(),
{
    if outs.len() == 0 {
        issued
    } else {
        let before = flushed_issued(issued, outs.drop_last());
        match outs.last() {
            Some(en) => before.insert(en.root).insert(en.body),
            None => before,
        }
    }
}

/// `outs` are outcomes that a flush of `cmds` can have: one for each request,
/// in order; a request is discarded exactly when it cannot be carried out in
/// the hierarchy that the requests before it have left, and every enemy is
/// made of handles that were never issued before.
pub open spec fn flush_valid(
    m: Nodes,
    issued: Set<Entity>,
    cmds: Seq<EnemySpawnCmd>,
    outs: Seq<Option<Enemy>>,
) -> bool
    decreases cmds.len(),
{
    &&& outs.len() == cmds.len()
    &&& cmds.len() > 0 ==> {
        let before = flushed(m, cmds.drop_last(), outs.drop_last());
        &&& flush_valid(m, issued, cmds.drop_last(), outs.drop_last())
        &&& match outs.last() {
            Some(en) => completes(before, cmds.last()) && fresh(
                flushed_issued(issued, outs.drop_last()),
                en,
            ),
            None => !completes(before, cmds.last()),
        }
    }
}

/// Carries out one request. The enemy, its body and its place below the
/// parent appear together. A request whose parent is not live is discarded
/// and leaves the world as it was.
pub fn spawn_enemy(world: &mut World, cmd: &EnemySpawnCmd) -> (r: Option<Enemy>)
    requires
        old(world).wf(),
    ensures
        final(world).wf(),
        match r {
            Some(en) => {
                &&& completes(old(world)@, *cmd)
                &&& fresh(old(world).issued(), en)
                &&& final(world)@ == with_enemy(old(world)@, *cmd, en)
                &&& final(world).issued() == old(world).issued().insert(en.root).insert(en.body)
            },
            None => {
                &&& !completes(old(world)@, *cmd)
                &&& final(world)@ == old(world)@
                &&& final(world).issued() == old(world).issued()
            },
        },
{
    match world.spawn(Kind::Enemy, cmd.pos, cmd.parent) {
        Err(_) => None,
        Ok(root) => {
            match world.spawn(Kind::EnemyBody, Isometry::identity(), Some(root)) {
                Ok(body) => Some(Enemy { root, body }),
                Err(_) => {
                    assert(false);
                    None
                },
            }
        },
    }
}

impl EnemySpawnCmd {
    /// Carries out this request on `world`.
    pub fn apply(self, world: &mut World) -> (r: Option<Enemy>)
        requires
            old(world).wf(),
        ensures
            final(world).wf(),
            match r {
                Some(en) => {
                    &&& completes(old(world)@, self)
                    &&& fresh(old(world).issued(), en)
                    &&& final(world)@ == with_enemy(old(world)@, self, en)
                    &&& final(world).issued() == old(world).issued().insert(en.root).insert(en.body)
                },
                None => {
                    &&& !completes(old(world)@, self)
                    &&& final(world)@ == old(world)@
                    &&& final(world).issued() == old(world).issued()
                },
            },
    {
        spawn_enemy(world, &self)
    }
}

/// The requests that wait for the next flush point, oldest first.
pub struct SpawnQueue {
    pending: Vec<EnemySpawnCmd>,
}

impl View for SpawnQueue {
    type V = Seq<EnemySpawnCmd>;

    closed spec fn view(&self) -> Seq<EnemySpawnCmd> {
        self.pending@
    }
}

impl SpawnQueue {
    pub fn new() -> (q: SpawnQueue)
        ensures
            q@ == Seq::<EnemySpawnCmd>::empty(),
    {
        SpawnQueue { pending: Vec::new() }
    }

    /// How many requests wait.
    pub fn len(&self) -> (n: usize)
        ensures
            n == self@.len(),
    {
        self.pending.len()
    }

    /// Adds a request behind those that wait. Nothing is created yet.
    pub fn enqueue(&mut self, cmd: EnemySpawnCmd)
        ensures
            final(self)@ == old(self)@.push(cmd),
    {
        self.pending.push(cmd);
    }

    /// The flush point: carries out every waiting request in the order it
    /// came and leaves the queue empty. Returns the outcome of each request,
    /// `None` for one that was discarded.
    pub fn flush(&mut self, world: &mut World) -> (outs: Vec<Option<Enemy>>)
        requires
            old(world).wf(),
        ensures
            final(world).wf(),
            final(self)@ == Seq::<EnemySpawnCmd>::empty(),
            flush_valid(old(world)@, old(world).issued(), old(self)@, outs@),
            final(world)@ == flushed(old(world)@, old(self)@, outs@),
            final(world).issued() == flushed_issued(old(world).issued(), outs@),
    {
        let ghost m0 = world@;
        let ghost i0 = world.issued();
        let ghost cmds = self@;
        let mut outs: Vec<Option<Enemy>> = Vec::new();
        let n = self.pending.len();
        let mut i: usize = 0;
        while i < n
            invariant
                world.wf(),
                self@ == cmds,
                n == cmds.len(),
                0 <= i <= n,
                flush_valid(m0, i0, cmds.take(i as int), outs@),
                world@ == flushed(m0, cmds.take(i as int), outs@),
                world.issued() == flushed_issued(i0, outs@),
            decreases n - i,
        {
            let cmd = self.pending[i];
            let out = spawn_enemy(world, &cmd);
            let ghost before = outs@;
            outs.push(out);
            proof {
                assert(cmds.take(i + 1).drop_last() == cmds.take(i as int));
                assert(cmds.take(i + 1).last() == cmd);
                assert(outs@.drop_last() == before);
            }
            i = i + 1;
        }
        self.pending.clear();
        proof {
            assert(cmds.take(n as int) == cmds);
        }
        outs
    }
}

/// A flush leaves every entity that was there with its kind, pose and
/// parent, and whatever it adds is an enemy or an enemy's body under a handle
/// that was never issued before.
pub proof fn lemma_flushed_keeps(
    m: Nodes,
    issued: Set<Entity>,
    cmds: Seq<EnemySpawnCmd>,
    outs: Seq<Option<Enemy>>,
)
    requires
        flush_valid(m, issued, cmds, outs),
        m.dom().subset_of(issued),
    ensures
        issued.subset_of(flushed_issued(issued, outs)),
        flushed(m, cmds, outs).dom().subset_of(flushed_issued(issued, outs)),
        forall|x: Entity|
            #![trigger flushed(m, cmds, outs).dom().contains(x)]
            #![trigger m.dom().contains(x)]
            m.dom().contains(x) ==> {
                &&& flushed(m, cmds, outs).dom().contains(x)
                &&& flushed(m, cmds, outs)[x].kind == m[x].kind
                &&& flushed(m, cmds, outs)[x].pose == m[x].pose
                &&& flushed(m, cmds, outs)[x].parent == m[x].parent
            },
        forall|x: Entity|
            #![trigger flushed(m, cmds, outs).dom().contains(x)]
            flushed(m, cmds, outs).dom().contains(x) && !m.dom().contains(x) ==> {
                &&& !issued.contains(x)
                &&& flushed(m, cmds, outs)[x].kind == Kind::Enemy || flushed(m, cmds, outs)[x].kind
                    == Kind::EnemyBody
            },
    decreases cmds.len(),
{
    if cmds.len() > 0 {
        lemma_flushed_keeps(m, issued, cmds.drop_last(), outs.drop_last());
    }
}

/// A flush keeps the hierarchy consistent.
pub proof fn lemma_flushed_linked(
    m: Nodes,
    issued: Set<Entity>,
    cmds: Seq<EnemySpawnCmd>,
    outs: Seq<Option<Enemy>>,
)
    requires
        flush_valid(m, issued, cmds, outs),
        m.dom().subset_of(issued),
        linked(m),
    ensures
        linked(flushed(m, cmds, outs)),
    decreases cmds.len(),
{
    if cmds.len() > 0 {
        let before = flushed(m, cmds.drop_last(), outs.drop_last());
        lemma_flushed_linked(m, issued, cmds.drop_last(), outs.drop_last());
        lemma_flushed_keeps(m, issued, cmds.drop_last(), outs.drop_last());
        if let Some(en) = outs.last() {
            let cmd = cmds.last();
            lemma_spawned_linked(before, en.root, Kind::Enemy, cmd.pos, cmd.parent);
            lemma_spawned_linked(
                spawned(before, en.root, Kind::Enemy, cmd.pos, cmd.parent),
                en.body,
                Kind::EnemyBody,
                Isometry::identity(),
                Some(en.root),
            );
        }
    }
}

} // verus!
