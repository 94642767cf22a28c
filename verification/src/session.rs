//! The session: the one owner of the game state, the world and the spawn
//! queue. Everything that changes them goes through its entry points, and a
//! tick is the only one that moves the state machine.

use vstd::prelude::*;
use crate::entity::{Entity, Isometry, Kind, Node, ONE_BITS};
use crate::level::{Level, LevelAssets, LevelConfig, assembled, enemy_requests, spawn_level};
use crate::player::{Player, positive};
use crate::queue::{
    Enemy, EnemySpawnCmd, SpawnQueue, flush_valid, flushed, flushed_issued, lemma_flushed_keeps,
};
use crate::state::{GameState, Screen, Signals};
use crate::tree::{
    Nodes, ancestor, descends, despawned, detached, lemma_descends_down, lemma_root_descends,
    linked, spawned,
};
use crate::world::World;

verus! {

/// What the outside hands to one tick.
#[derive(Clone, Copy, Debug, PartialEq, Eq, Structural)]
pub struct TickInput {
    /// The cancel / menu key went down since the last tick.
    pub pause_pressed: bool,
    /// The open menu asked to be closed.
    pub close_menu: bool,
    /// A screen was asked for.
    pub goto: Option<Screen>,
}

/// What one tick did.
#[derive(Clone, Debug, PartialEq, Eq)]
pub struct TickReport {
    /// The settled state after the tick.
    pub state: GameState,
    /// Gameplay was entered and a level was assembled.
    pub level_assembled: bool,
    /// Gameplay was left and the level was destroyed.
    pub level_destroyed: bool,
    /// The outcome of each spawn request that was flushed, in order; `None`
    /// for a request that was discarded.
    pub enemies: Vec<Option<Enemy>>,
}

/// The abstract value of a session.
pub struct SessionView {
    pub state: GameState,
    /// The live entities.
    pub nodes: Nodes,
    /// Every handle ever handed out.
    pub issued: Set<Entity>,
    /// The spawn requests that wait for the next flush point.
    pub queue: Seq<EnemySpawnCmd>,
    pub camera: Entity,
    /// The level, while there is one.
    pub level: Option<Level>,
    /// The overlay behind the open menu, while there is one.
    pub overlay: Option<Entity>,
    pub vitals: Player,
    /// The record of the level's assets, once it has been handed over.
    pub assets: Option<LevelAssets>,
    pub config: LevelConfig,
}

impl SessionView {
    /// The world fits the state: with `gameplay` there is a level, and it is
    /// the only one; the camera lives, below the player while there is a
    /// level and as a root otherwise; with `paused` there is an overlay, and
    /// it is the only one.
    pub open spec fn shaped(self, gameplay: bool, paused: bool) -> bool {
        &&& linked(self.nodes)
        &&& self.nodes.dom().subset_of(self.issued)
        &&& self.nodes.dom().contains(self.camera)
        &&& self.nodes[self.camera].kind == Kind::Camera
        &&& gameplay == (self.level is Some)
        &&& match self.level {
            Some(l) => {
                &&& self.nodes.dom().contains(l.root)
                &&& self.nodes[l.root].kind == Kind::Level
                &&& self.nodes[l.root].parent is None
                &&& self.nodes.dom().contains(l.player)
                &&& self.nodes[l.player].kind == Kind::Player
                &&& self.nodes[l.player].parent == Some(l.root)
                &&& self.nodes[self.camera].parent == Some(l.player)
            },
            None => self.nodes[self.camera].parent is None,
        }
        &&& paused == (self.overlay is Some)
        &&& self.overlay matches Some(o) ==> {
            &&& self.nodes.dom().contains(o)
            &&& self.nodes[o].kind == Kind::Overlay
            &&& self.nodes[o].parent is None
        }
        &&& forall|x: Entity|
            #![trigger self.nodes.dom().contains(x)]
            self.nodes.dom().contains(x) && self.nodes[x].kind == Kind::Overlay ==> self.overlay == Some(x)
        &&& forall|x: Entity|
            #![trigger self.nodes.dom().contains(x)]
            self.nodes.dom().contains(x) && self.nodes[x].kind == Kind::Level ==> (self.level matches Some(l)
                && l.root == x)
    }

    /// What holds of a session between ticks: menu and pause go together,
    /// and the world fits the state.
    pub open spec fn sound(self) -> bool {
        &&& self.state.consistent()
        &&& self.shaped(self.state.screen == Screen::Gameplay, self.state.pause.0)
    }

    /// What a tick with `input` observes in this session.
    pub open spec fn signals(self, input: TickInput) -> Signals {
        Signals {
            pause_pressed: input.pause_pressed,
            close_menu: input.close_menu,
            goto: input.goto,
            player_alive: positive(self.vitals.health),
            assets_ready: self.assets is Some,
        }
    }
}

/// `post` and `report` are what a tick with `input` makes of `pre`.
///
/// The state moves by one step of the state machine. The world follows it:
/// on leaving gameplay the camera is cut loose and the level is destroyed;
/// when the pause ends the overlay is destroyed; on entering gameplay a level
/// is assembled and the player's vitals start anew; when the pause begins an
/// overlay appears. Last, the spawn queue is flushed.
pub open spec fn ticked(pre: SessionView, input: TickInput, post: SessionView, report: TickReport) -> bool {
    let next = pre.state.stepped(pre.signals(input));
    let leaving = pre.state.screen == Screen::Gameplay && next.screen != Screen::Gameplay;
    let entering = pre.state.screen != Screen::Gameplay && next.screen == Screen::Gameplay;
    let resuming = pre.state.pause.0 && !next.pause.0;
    let pausing = !pre.state.pause.0 && next.pause.0;
    let w1 = if leaving {
        despawned(detached(pre.nodes, pre.camera), pre.level->0.root)
    } else {
        pre.nodes
    };
    let w2 = if resuming {
        despawned(w1, pre.overlay->0)
    } else {
        w1
    };
    let w3 = if entering {
        assembled(w2, pre.camera, pre.config, post.level->0)
    } else {
        w2
    };
    let i3 = if entering {
        pre.issued.union(post.level->0.handles())
    } else {
        pre.issued
    };
    let w4 = if pausing {
        spawned(w3, post.overlay->0, Kind::Overlay, Isometry::identity(), None)
    } else {
        w3
    };
    let i4 = if pausing {
        i3.insert(post.overlay->0)
    } else {
        i3
    };
    let q = if entering {
        pre.queue + enemy_requests(pre.config.enemies@, post.level->0.root)
    } else {
        pre.queue
    };
    &&& post.state == next
    &&& report.state == next
    &&& report.level_assembled == entering
    &&& report.level_destroyed == leaving
    &&& post.camera == pre.camera
    &&& post.config == pre.config
    &&& post.assets == pre.assets
    &&& post.vitals == if entering {
        Player { health: ONE_BITS, hallucination_severity: 0 }
    } else {
        pre.vitals
    }
    &&& if entering {
        post.level matches Some(l) && l.fresh(pre.issued)
    } else if leaving {
        post.level is None
    } else {
        post.level == pre.level
    }
    &&& if pausing {
        post.overlay matches Some(o) && !i3.contains(o)
    } else if resuming {
        post.overlay is None
    } else {
        post.overlay == pre.overlay
    }
    &&& flush_valid(w4, i4, q, report.enemies@)
    &&& post.nodes == flushed(w4, q, report.enemies@)
    &&& post.issued == flushed_issued(i4, report.enemies@)
    &&& post.queue == Seq::<EnemySpawnCmd>::empty()
}

/// Creates the full-screen overlay that stands behind a menu: a root of its
/// own, under a handle that was never used before.
pub fn spawn_background_overlay(world: &mut World) -> (o: Entity)
    requires
        old(world).wf(),
    ensures
        final(world).wf(),
        !old(world).issued().contains(o),
        final(world).issued() == old(world).issued().insert(o),
        final(world)@ == spawned(old(world)@, o, Kind::Overlay, Isometry::identity(), None),
{
    match world.spawn(Kind::Overlay, Isometry::identity(), None) {
        Ok(e) => e,
        Err(_) => {
            assert(false);
            Entity { index: 0, generation: 0 }
        },
    }
}

/// One game session: the settled state, the world with its camera, the
/// level while there is one, and the spawn requests that wait.
pub struct Session {
    state: GameState,
    world: World,
    queue: SpawnQueue,
    camera: Entity,
    level: Option<Level>,
    overlay: Option<Entity>,
    vitals: Player,
    assets: Option<LevelAssets>,
    config: LevelConfig,
}

impl View for Session {
    type V = SessionView;

    closed spec fn view(&self) -> SessionView {
        SessionView {
            state: self.state,
            nodes: self.world@,
            issued: self.world.issued(),
            queue: self.queue@,
            camera: self.camera,
            level: self.level,
            overlay: self.overlay,
            vitals: self.vitals,
            assets: self.assets,
            config: self.config,
        }
    }
}

impl Session {
    /// The invariant of the session: its world is well formed and its
    /// abstract value is sound. Every entry point keeps it.
    pub closed spec fn inv(&self) -> bool {
        self.world.wf() && self@.sound()
    }

    /// A session on the title screen, with a camera and nothing else in its
    /// world.
    pub fn new(config: LevelConfig) -> (s: Session)
        ensures
            s.inv(),
            s@.sound(),
            s@.state == GameState::initial(),
            s@.nodes.dom() == set![s@.camera],
            s@.queue.len() == 0,
            s@.level is None,
            s@.overlay is None,
            s@.vitals == (Player { health: ONE_BITS, hallucination_severity: 0 }),
            s@.assets is None,
            s@.config == config,
            s@.issued == set![s@.camera],
            s@.nodes[s@.camera] == (Node {
                kind: Kind::Camera,
                pose: Isometry::identity(),
                parent: None,
                children: Seq::empty(),
            }),
    {
        let mut world = World::new();
        let camera = match world.spawn(Kind::Camera, Isometry::identity(), None) {
            Ok(e) => e,
            Err(_) => {
                assert(false);
                Entity { index: 0, generation: 0 }
            },
        };
        proof {
            world.lemma_wf();
            assert(world@.dom() =~= set![camera]);
        }
        Session {
            state: GameState::initial(),
            world,
            queue: SpawnQueue::new(),
            camera,
            level: None,
            overlay: None,
            vitals: Player::default(),
            assets: None,
            config,
        }
    }

    pub fn state(&self) -> (r: GameState)
        ensures
            r == self@.state,
    {
        self.state
    }

    pub fn camera(&self) -> (r: Entity)
        ensures
            r == self@.camera,
    {
        self.camera
    }

    pub fn level(&self) -> (r: Option<Level>)
        ensures
            r == self@.level,
    {
        self.level
    }

    pub fn overlay(&self) -> (r: Option<Entity>)
        ensures
            r == self@.overlay,
    {
        self.overlay
    }

    pub fn player(&self) -> (r: Player)
        ensures
            r == self@.vitals,
    {
        self.vitals
    }

    pub fn config(&self) -> (r: &LevelConfig)
        ensures
            *r == self@.config,
    {
        &self.config
    }

    /// The record of the level's assets, once it has been handed over.
    pub fn assets(&self) -> (r: Option<&LevelAssets>)
        ensures
            r == match self@.assets {
                Some(a) => Some(&a),
                None => None,
            },
    {
        self.assets.as_ref()
    }

    /// The world, to be read.
    pub fn world(&self) -> (w: &World)
        ensures
            w@ == self@.nodes,
            w.issued() == self@.issued,
            self.inv() ==> w.wf(),
    {
        &self.world
    }

    /// How many spawn requests wait for the next flush point.
    pub fn pending(&self) -> (n: usize)
        ensures
            n == self@.queue.len(),
    {
        self.queue.len()
    }

    /// Hands over the record of the level's assets, once they have all been
    /// loaded. The first record stays; a later one is dropped. Returns
    /// whether this one was taken.
    pub fn provide_assets(&mut self, assets: LevelAssets) -> (taken: bool)
        requires
            old(self).inv(),
        ensures
            final(self).inv(),
            final(self)@.sound(),
            taken == (old(self)@.assets is None),
            final(self)@ == if taken {
                SessionView { assets: Some(assets), ..old(self)@ }
            } else {
                old(self)@
            },
    {
        if self.assets.is_some() {
            return false;
        }
        self.assets = Some(assets);
        true
    }

    /// Writes the player's vitals, as the systems that deal damage do.
    pub fn set_player(&mut self, vitals: Player)
        requires
            old(self).inv(),
        ensures
            final(self).inv(),
            final(self)@.sound(),
            final(self)@ == (SessionView { vitals, ..old(self)@ }),
    {
        self.vitals = vitals;
    }

    /// Queues a request to spawn an enemy. It is carried out at the flush
    /// point of the next tick, not before.
    pub fn enqueue(&mut self, cmd: EnemySpawnCmd)
        requires
            old(self).inv(),
        ensures
            final(self).inv(),
            final(self)@.sound(),
            final(self)@ == (SessionView { queue: old(self)@.queue.push(cmd), ..old(self)@ }),
    {
        self.queue.enqueue(cmd);
    }

    /// Leaving gameplay: the camera is cut loose first, then the level is
    /// destroyed with everything below it.
    fn exit_gameplay(&mut self, root: Entity)
        requires
            old(self).world.wf(),
            old(self)@.shaped(true, old(self)@.overlay is Some),
            old(self)@.level->0.root == root,
        ensures
            final(self).world.wf(),
            final(self)@.shaped(false, old(self)@.overlay is Some),
            final(self)@ == (SessionView {
                nodes: despawned(detached(old(self)@.nodes, old(self)@.camera), root),
                level: None,
                ..old(self)@
            }),
    {
        let ghost v0 = self@;
        self.world.remove_parent(self.camera);
        let ghost md = self.world@;
        proof {
            assert(md == detached(v0.nodes, v0.camera));
            lemma_root_descends(md, self.camera, root);
            if let Some(o) = v0.overlay {
                lemma_root_descends(md, o, root);
            }
            assert(ancestor(md, root, 0) == Some(root));
        }
        self.world.despawn(root);
        self.level = None;
        proof {
            self.world.lemma_wf();
        }
    }

    /// The pause ends: the overlay is destroyed.
    fn despawn_background_overlay(&mut self, o: Entity)
        requires
            old(self).world.wf(),
            old(self)@.shaped(old(self)@.level is Some, true),
            old(self)@.overlay == Some(o),
        ensures
            final(self).world.wf(),
            final(self)@.shaped(old(self)@.level is Some, false),
            final(self)@ == (SessionView { nodes: despawned(old(self)@.nodes, o), overlay: None, ..old(self)@ }),
    {
        let ghost v0 = self@;
        let ghost m = self.world@;
        proof {
            if v0.level is None {
                lemma_root_descends(m, self.camera, o);
            }
            if let Some(l) = v0.level {
                lemma_root_descends(m, l.root, o);
                if descends(m, l.player, o) {
                    lemma_descends_down(m, l.player, o);
                }
                if descends(m, self.camera, o) {
                    lemma_descends_down(m, self.camera, o);
                }
            }
            assert(ancestor(m, o, 0) == Some(o));
        }
        self.world.despawn(o);
        self.overlay = None;
        proof {
            self.world.lemma_wf();
        }
    }

    /// Entering gameplay: a level is assembled and the player starts anew.
    fn enter_gameplay(&mut self) -> (lvl: Level)
        requires
            old(self).world.wf(),
            old(self)@.shaped(false, false),
            old(self)@.assets is Some,
        ensures
            final(self).world.wf(),
            final(self)@.shaped(true, false),
            lvl.fresh(old(self)@.issued),
            final(self)@ == (SessionView {
                nodes: assembled(old(self)@.nodes, old(self)@.camera, old(self)@.config, lvl),
                issued: old(self)@.issued.union(lvl.handles()),
                queue: old(self)@.queue + enemy_requests(old(self)@.config.enemies@, lvl.root),
                level: Some(lvl),
                vitals: Player { health: ONE_BITS, hallucination_severity: 0 },
                ..old(self)@
            }),
    {
        let ghost v0 = self@;
        let r = spawn_level(&mut self.world, &mut self.queue, self.camera, self.assets.as_ref(), &self.config);
        let lvl = match r {
            Ok(l) => l,
            Err(_) => {
                assert(false);
                Level { root: self.camera, player: self.camera, light: self.camera, music: self.camera }
            },
        };
        self.level = Some(lvl);
        self.vitals = Player::default();
        proof {
            self.world.lemma_wf();
        }
        lvl
    }

    /// The pause begins: an overlay appears.
    fn raise_overlay(&mut self) -> (o: Entity)
        requires
            old(self).world.wf(),
            old(self)@.shaped(old(self)@.level is Some, false),
        ensures
            final(self).world.wf(),
            final(self)@.shaped(old(self)@.level is Some, true),
            !old(self)@.issued.contains(o),
            final(self)@ == (SessionView {
                nodes: spawned(old(self)@.nodes, o, Kind::Overlay, Isometry::identity(), None),
                issued: old(self)@.issued.insert(o),
                overlay: Some(o),
                ..old(self)@
            }),
    {
        let o = spawn_background_overlay(&mut self.world);
        self.overlay = Some(o);
        proof {
            self.world.lemma_wf();
        }
        o
    }

    /// The flush point of the spawn queue.
    fn flush(&mut self) -> (outs: Vec<Option<Enemy>>)
        requires
            old(self).world.wf(),
            old(self)@.shaped(old(self)@.level is Some, old(self)@.overlay is Some),
        ensures
            final(self).world.wf(),
            final(self)@.shaped(old(self)@.level is Some, old(self)@.overlay is Some),
            flush_valid(old(self)@.nodes, old(self)@.issued, old(self)@.queue, outs@),
            final(self)@ == (SessionView {
                nodes: flushed(old(self)@.nodes, old(self)@.queue, outs@),
                issued: flushed_issued(old(self)@.issued, outs@),
                queue: Seq::empty(),
                ..old(self)@
            }),
    {
        let ghost v0 = self@;
        let outs = self.queue.flush(&mut self.world);
        proof {
            self.world.lemma_wf();
            lemma_flushed_keeps(v0.nodes, v0.issued, v0.queue, outs@);
        }
        outs
    }

    /// One tick. The guards are read against the settled state, the state
    /// machine takes its step, the world follows, and the spawn queue is
    /// flushed.
    pub fn tick(&mut self, input: TickInput) -> (report: TickReport)
        requires
            old(self).inv(),
        ensures
            final(self).inv(),
            final(self)@.sound(),
            ticked(old(self)@, input, final(self)@, report),
    {
        let signals = Signals {
            pause_pressed: input.pause_pressed,
            close_menu: input.close_menu,
            goto: input.goto,
            player_alive: self.vitals.is_alive(),
            assets_ready: self.assets.is_some(),
        };
        let before = self.state;
        let next = before.step(&signals);
        let leaving = before.screen == Screen::Gameplay && next.screen != Screen::Gameplay;
        let entering = before.screen != Screen::Gameplay && next.screen == Screen::Gameplay;
        let resuming = before.pause.0 && !next.pause.0;
        let pausing = !before.pause.0 && next.pause.0;
        if leaving {
            if let Some(l) = self.level {
                self.exit_gameplay(l.root);
            }
        }
        if resuming {
            if let Some(o) = self.overlay {
                self.despawn_background_overlay(o);
            }
        }
        if entering {
            self.enter_gameplay();
        }
        if pausing {
            self.raise_overlay();
        }
        self.state = next;
        let enemies = self.flush();
        TickReport { state: next, level_assembled: entering, level_destroyed: leaving, enemies }
    }
}

} // verus!
