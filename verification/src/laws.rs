//! What holds of the library as a whole, proved from the contracts of its
//! parts.

use vstd::prelude::*;
use crate::entity::{Entity, Isometry, Kind};
use crate::level::{Level, assembled, enemy_requests, lemma_assembled};
use crate::player::positive;
use crate::queue::{
    Enemy, EnemySpawnCmd, flush_valid, flushed, flushed_issued, lemma_flushed_keeps,
    lemma_flushed_linked, with_enemy,
};
use crate::session::{SessionView, TickInput, TickReport, ticked};
use crate::state::{GameState, Menu, Pause, Screen, Signals};
use crate::tree::{
    Nodes, ancestor, descends, despawned, detached, lemma_descends_down, lemma_despawned_root,
    lemma_detached_linked, lemma_root_descends, lemma_spawned_linked, linked, spawned,
};

verus! {

/// One step of the state machine keeps menu and pause together.
pub proof fn law_step_consistent(s: GameState, signals: Signals)
    requires
        s.consistent(),
    ensures
        s.stepped(signals).consistent(),
{
}

/// Menu and pause go together after every sequence of ticks: a state with
/// the menu closed and the game paused, or with a menu open and the game
/// running, is never reached.
pub proof fn law_menu_and_pause_together(s: GameState, signals: Seq<Signals>)
    requires
        s.consistent(),
    ensures
        s.ran(signals).consistent(),
        !(s.ran(signals).menu == Menu::Closed && s.ran(signals).pause.0),
        !(s.ran(signals).menu == Menu::Pause && !s.ran(signals).pause.0),
        !(s.ran(signals).menu == Menu::Death && !s.ran(signals).pause.0),
    decreases signals.len(),
{
    if signals.len() > 0 {
        law_menu_and_pause_together(s, signals.drop_last());
        law_step_consistent(s.ran(signals.drop_last()), signals.last());
    }
}

/// What each kind of signal does to the state.
pub proof fn law_transitions(s: GameState, signals: Signals)
    ensures
        // the pause key, with the player alive
        s == (GameState { screen: Screen::Gameplay, menu: Menu::Closed, pause: Pause(false) })
            && signals.pause_pressed && signals.player_alive && s.target_screen(signals)
            == Screen::Gameplay ==> s.stepped(signals) == (GameState {
            screen: Screen::Gameplay,
            menu: Menu::Pause,
            pause: Pause(true),
        }),
        // closing the menu
        s.screen == Screen::Gameplay && s.menu != Menu::Closed && signals.close_menu
            && s.target_screen(signals) == Screen::Gameplay ==> s.stepped(signals) == (GameState {
            screen: Screen::Gameplay,
            menu: Menu::Closed,
            pause: Pause(false),
        }),
        // a dead player, whatever the pause flag was
        s.screen == Screen::Gameplay && s.menu == Menu::Closed && !signals.player_alive
            && s.target_screen(signals) == Screen::Gameplay ==> s.stepped(signals) == (GameState {
            screen: Screen::Gameplay,
            menu: Menu::Death,
            pause: Pause(true),
        }),
        // leaving gameplay
        s.screen == Screen::Gameplay && s.target_screen(signals) != Screen::Gameplay ==> s.stepped(
            signals,
        ) == (GameState { screen: s.target_screen(signals), menu: Menu::Closed, pause: Pause(false) }),
        // entering gameplay
        s.screen != Screen::Gameplay && s.target_screen(signals) == Screen::Gameplay ==> s.stepped(
            signals,
        ) == (GameState { screen: Screen::Gameplay, menu: Menu::Closed, pause: Pause(false) }),
        // gameplay is entered only with the assets ready
        s.screen != Screen::Gameplay && s.stepped(signals).screen == Screen::Gameplay
            ==> signals.assets_ready,
{
}

/// Leaving gameplay leaves a world without a level, with the camera a root.
proof fn lemma_exit_shaped(v: SessionView, paused: bool)
    requires
        v.shaped(true, paused),
    ensures
        (SessionView {
            nodes: despawned(detached(v.nodes, v.camera), v.level->0.root),
            level: None,
            ..v
        }).shaped(false, paused),
{
    let root = v.level->0.root;
    let md = detached(v.nodes, v.camera);
    lemma_detached_linked(v.nodes, v.camera);
    lemma_despawned_root(md, root);
    lemma_root_descends(md, v.camera, root);
    if let Some(o) = v.overlay {
        lemma_root_descends(md, o, root);
    }
    assert(ancestor(md, root, 0) == Some(root));
}

/// The end of a pause leaves a world without an overlay.
proof fn lemma_resume_shaped(v: SessionView, gameplay: bool)
    requires
        v.shaped(gameplay, true),
    ensures
        (SessionView { nodes: despawned(v.nodes, v.overlay->0), overlay: None, ..v }).shaped(
            gameplay,
            false,
        ),
{
    let o = v.overlay->0;
    let m = v.nodes;
    lemma_despawned_root(m, o);
    if v.level is None {
        lemma_root_descends(m, v.camera, o);
    }
    if let Some(l) = v.level {
        lemma_root_descends(m, l.root, o);
        if descends(m, l.player, o) {
            lemma_descends_down(m, l.player, o);
        }
        if descends(m, v.camera, o) {
            lemma_descends_down(m, v.camera, o);
        }
    }
    assert(ancestor(m, o, 0) == Some(o));
}

/// Entering gameplay leaves a world with the new level as its only one.
proof fn lemma_enter_shaped(v: SessionView, lvl: Level)
    requires
        v.shaped(false, false),
        lvl.fresh(v.issued),
    ensures
        (SessionView {
            nodes: assembled(v.nodes, v.camera, v.config, lvl),
            issued: v.issued.union(lvl.handles()),
            level: Some(lvl),
            ..v
        }).shaped(true, false),
{
    lemma_assembled(v.nodes, v.camera, v.config, lvl, v.issued);
}

/// The start of a pause leaves a world with the new overlay as its only one.
proof fn lemma_pause_shaped(v: SessionView, gameplay: bool, o: Entity)
    requires
        v.shaped(gameplay, false),
        !v.issued.contains(o),
    ensures
        (SessionView {
            nodes: spawned(v.nodes, o, Kind::Overlay, Isometry::identity(), None),
            issued: v.issued.insert(o),
            overlay: Some(o),
            ..v
        }).shaped(gameplay, true),
{
    lemma_spawned_linked(v.nodes, o, Kind::Overlay, Isometry::identity(), None);
}

/// A flush of the spawn queue leaves the world in its shape.
proof fn lemma_flush_shaped(v: SessionView, gameplay: bool, paused: bool, outs: Seq<Option<Enemy>>)
    requires
        v.shaped(gameplay, paused),
        flush_valid(v.nodes, v.issued, v.queue, outs),
    ensures
        (SessionView {
            nodes: flushed(v.nodes, v.queue, outs),
            issued: flushed_issued(v.issued, outs),
            queue: Seq::empty(),
            ..v
        }).shaped(gameplay, paused),
{
    lemma_flushed_linked(v.nodes, v.issued, v.queue, outs);
    lemma_flushed_keeps(v.nodes, v.issued, v.queue, outs);
}

/// Every tick keeps the session sound: there is a level exactly during
/// gameplay and never a second one, the camera lives through every tick,
/// and menu, pause and overlay go together.
pub proof fn law_tick_keeps_sound(pre: SessionView, input: TickInput, post: SessionView, report: TickReport)
    requires
        pre.sound(),
        ticked(pre, input, post, report),
    ensures
        post.sound(),
{
    let next = pre.state.stepped(pre.signals(input));
    law_step_consistent(pre.state, pre.signals(input));
    let leaving = pre.state.screen == Screen::Gameplay && next.screen != Screen::Gameplay;
    let entering = pre.state.screen != Screen::Gameplay && next.screen == Screen::Gameplay;
    let resuming = pre.state.pause.0 && !next.pause.0;
    let pausing = !pre.state.pause.0 && next.pause.0;
    let playing_first = pre.state.screen == Screen::Gameplay;
    let v1 = if leaving {
        SessionView {
            nodes: despawned(detached(pre.nodes, pre.camera), pre.level->0.root),
            level: None,
            ..pre
        }
    } else {
        pre
    };
    let playing_then = playing_first && !leaving;
    if leaving {
        lemma_exit_shaped(pre, pre.state.pause.0);
    }
    assert(v1.shaped(playing_then, pre.state.pause.0));
    let v2 = if resuming {
        SessionView { nodes: despawned(v1.nodes, v1.overlay->0), overlay: None, ..v1 }
    } else {
        v1
    };
    let paused_then = pre.state.pause.0 && !resuming;
    if resuming {
        lemma_resume_shaped(v1, playing_then);
    }
    assert(v2.shaped(playing_then, paused_then));
    let v3 = if entering {
        SessionView {
            nodes: assembled(v2.nodes, v2.camera, v2.config, post.level->0),
            issued: v2.issued.union(post.level->0.handles()),
            level: post.level,
            queue: v2.queue + enemy_requests(v2.config.enemies@, post.level->0.root),
            vitals: post.vitals,
            ..v2
        }
    } else {
        v2
    };
    let playing_last = playing_then || entering;
    if entering {
        lemma_enter_shaped(v2, post.level->0);
    }
    assert(v3.shaped(playing_last, paused_then));
    let v4 = if pausing {
        SessionView {
            nodes: spawned(v3.nodes, post.overlay->0, Kind::Overlay, Isometry::identity(), None),
            issued: v3.issued.insert(post.overlay->0),
            overlay: post.overlay,
            ..v3
        }
    } else {
        v3
    };
    let paused_last = paused_then || pausing;
    if pausing {
        lemma_pause_shaped(v3, playing_last, post.overlay->0);
    }
    assert(v4.shaped(playing_last, paused_last));
    lemma_flush_shaped(v4, playing_last, paused_last, report.enemies@);
    let v5 = SessionView {
        nodes: flushed(v4.nodes, v4.queue, report.enemies@),
        issued: flushed_issued(v4.issued, report.enemies@),
        queue: Seq::empty(),
        ..v4
    };
    assert(v5.shaped(playing_last, paused_last));
    assert(post == SessionView { state: next, ..v5 });
}

/// The pause key, pressed during gameplay with no menu open and the player
/// alive, opens the pause menu, pauses the game and brings exactly one
/// overlay into the world, under a handle that was never used before.
pub proof fn law_pause_key(pre: SessionView, input: TickInput, post: SessionView, report: TickReport)
    requires
        pre.sound(),
        ticked(pre, input, post, report),
        pre.state == (GameState { screen: Screen::Gameplay, menu: Menu::Closed, pause: Pause(false) }),
        input.pause_pressed,
        input.goto != Some(Screen::Title),
        positive(pre.vitals.health),
    ensures
        post.state == (GameState { screen: Screen::Gameplay, menu: Menu::Pause, pause: Pause(true) }),
        post.overlay is Some,
        !pre.issued.contains(post.overlay->0),
        forall|x: Entity|
            post.nodes.dom().contains(x) && post.nodes[x].kind == Kind::Overlay <==> x == post.overlay->0,
{
    law_tick_keeps_sound(pre, input, post, report);
}

/// While a menu is open the pause key does nothing: the state, the level and
/// the overlay stay, and the world changes only by what the spawn queue
/// held.
pub proof fn law_pause_key_blocked(pre: SessionView, input: TickInput, post: SessionView, report: TickReport)
    requires
        pre.sound(),
        ticked(pre, input, post, report),
        pre.state.menu != Menu::Closed,
        input == (TickInput { pause_pressed: true, close_menu: false, goto: None }),
    ensures
        post.state == pre.state,
        post.level == pre.level,
        post.overlay == pre.overlay,
        post.nodes == flushed(pre.nodes, pre.queue, report.enemies@),
        pre.queue.len() == 0 ==> post.nodes == pre.nodes && post.issued == pre.issued,
{
    if pre.queue.len() == 0 {
        assert(report.enemies@.len() == 0);
    }
}

/// While the pause menu is open no tick opens the death menu, whatever the
/// player's health is.
pub proof fn law_death_waits(pre: SessionView, input: TickInput, post: SessionView, report: TickReport)
    requires
        pre.sound(),
        ticked(pre, input, post, report),
        pre.state.menu == Menu::Pause,
    ensures
        post.state.menu != Menu::Death,
        post.vitals == pre.vitals,
{
}

/// A death that fell due while the pause menu was open is not lost: the tick
/// that closes the menu settles to running gameplay, and the tick after it
/// opens the death menu, pauses the game and brings a new overlay.
pub proof fn law_death_deferred(
    s0: SessionView,
    i0: TickInput,
    s1: SessionView,
    r0: TickReport,
    i1: TickInput,
    s2: SessionView,
    r1: TickReport,
)
    requires
        s0.sound(),
        ticked(s0, i0, s1, r0),
        ticked(s1, i1, s2, r1),
        s0.state.menu == Menu::Pause,
        !positive(s0.vitals.health),
        i0.close_menu,
        i0.goto != Some(Screen::Title),
        i1.goto != Some(Screen::Title),
    ensures
        s1.state == (GameState { screen: Screen::Gameplay, menu: Menu::Closed, pause: Pause(false) }),
        s1.overlay is None,
        s2.state == (GameState { screen: Screen::Gameplay, menu: Menu::Death, pause: Pause(true) }),
        s2.overlay is Some,
        s2.overlay != s0.overlay,
{
    lemma_issued_grows(s0, i0, s1, r0);
}

/// Handles are never taken back: what was issued before a tick is issued
/// after it.
pub proof fn lemma_issued_grows(pre: SessionView, input: TickInput, post: SessionView, report: TickReport)
    requires
        ticked(pre, input, post, report),
    ensures
        pre.issued.subset_of(post.issued),
{
    let next = pre.state.stepped(pre.signals(input));
    let entering = pre.state.screen != Screen::Gameplay && next.screen == Screen::Gameplay;
    let pausing = !pre.state.pause.0 && next.pause.0;
    let i3 = if entering {
        pre.issued.union(post.level->0.handles())
    } else {
        pre.issued
    };
    let i4 = if pausing {
        i3.insert(post.overlay->0)
    } else {
        i3
    };
    lemma_flushed_issued_grows(i4, report.enemies@);
}

proof fn lemma_flushed_issued_grows(issued: Set<Entity>, outs: Seq<Option<Enemy>>)
    ensures
        issued.subset_of(flushed_issued(issued, outs)),
    decreases outs.len(),
{
    if outs.len() > 0 {
        lemma_flushed_issued_grows(issued, outs.drop_last());
    }
}

/// The tick that leaves gameplay destroys the level: its root is gone and so
/// is every entity that stood below the root once the camera was cut loose,
/// its children first of all. The camera is the same entity as before and
/// it lives.
pub proof fn law_level_destroyed(pre: SessionView, input: TickInput, post: SessionView, report: TickReport)
    requires
        pre.sound(),
        ticked(pre, input, post, report),
        pre.state.screen == Screen::Gameplay,
        post.state.screen != Screen::Gameplay,
    ensures
        post.level is None,
        post.camera == pre.camera,
        post.nodes.dom().contains(post.camera),
        !post.nodes.dom().contains(pre.level->0.root),
        !post.nodes.dom().contains(pre.level->0.player),
        forall|x: Entity|
            descends(detached(pre.nodes, pre.camera), x, pre.level->0.root) ==> !post.nodes.dom().contains(x),
        forall|x: Entity|
            pre.nodes.dom().contains(x) && pre.nodes[x].parent == Some(pre.level->0.root)
                ==> !post.nodes.dom().contains(x),
{
    law_tick_keeps_sound(pre, input, post, report);
    let root = pre.level->0.root;
    let md = detached(pre.nodes, pre.camera);
    let w1 = despawned(md, root);
    let next = pre.state.stepped(pre.signals(input));
    let resuming = pre.state.pause.0 && !next.pause.0;
    let w2 = if resuming {
        despawned(w1, pre.overlay->0)
    } else {
        w1
    };
    assert(post.nodes == flushed(w2, pre.queue, report.enemies@));
    assert(w2.dom().subset_of(pre.nodes.dom()));
    assert(w2.dom().subset_of(pre.issued));
    lemma_flushed_keeps(w2, pre.issued, pre.queue, report.enemies@);
    assert forall|x: Entity| descends(md, x, root) implies !post.nodes.dom().contains(x) by {
        assert(!w2.dom().contains(x));
        if post.nodes.dom().contains(x) {
            assert(!pre.issued.contains(x));
            if x == root {
            } else {
                lemma_descends_down(md, x, root);
                assert(pre.nodes.dom().contains(x));
            }
        }
    }
    assert forall|x: Entity|
        pre.nodes.dom().contains(x) && pre.nodes[x].parent == Some(root) implies !post.nodes.dom().contains(
        x,
    ) by {
        assert(x != pre.camera);
        assert(md[x].parent == Some(root));
        assert(ancestor(md, x, 1) == Some(root));
    }
    assert(ancestor(md, root, 0) == Some(root));
    assert(ancestor(md, pre.level->0.player, 1) == Some(root));
}

/// A run of ticks: the first state is sound and each state comes from the
/// one before it by a tick.
pub open spec fn is_run(states: Seq<SessionView>, inputs: Seq<TickInput>, reports: Seq<TickReport>) -> bool {
    &&& states.len() == inputs.len() + 1
    &&& reports.len() == inputs.len()
    &&& states[0].sound()
    &&& forall|k: int|
        0 <= k < inputs.len() ==> ticked(#[trigger] states[k], inputs[k], states[k + 1], reports[k])
}

/// Every state of a run is sound. In particular menu and pause go together
/// in every state of every run.
pub proof fn law_run_sound(states: Seq<SessionView>, inputs: Seq<TickInput>, reports: Seq<TickReport>, k: int)
    requires
        is_run(states, inputs, reports),
        0 <= k < states.len(),
    ensures
        states[k].sound(),
        !(states[k].state.menu == Menu::Closed && states[k].state.pause.0),
        !(states[k].state.menu == Menu::Pause && !states[k].state.pause.0),
    decreases k,
{
    if k > 0 {
        law_run_sound(states, inputs, reports, k - 1);
        assert(ticked(states[k - 1], inputs[k - 1], states[k], reports[k - 1]));
        law_tick_keeps_sound(states[k - 1], inputs[k - 1], states[k], reports[k - 1]);
    }
}

/// Along a run the camera stays the same entity and no handle is taken back.
pub proof fn law_camera_stable(
    states: Seq<SessionView>,
    inputs: Seq<TickInput>,
    reports: Seq<TickReport>,
    i: int,
    j: int,
)
    requires
        is_run(states, inputs, reports),
        0 <= i <= j < states.len(),
    ensures
        states[j].camera == states[i].camera,
        states[j].nodes.dom().contains(states[i].camera),
        states[i].issued.subset_of(states[j].issued),
    decreases j - i,
{
    law_run_sound(states, inputs, reports, j);
    if i < j {
        law_camera_stable(states, inputs, reports, i, j - 1);
        assert(ticked(states[j - 1], inputs[j - 1], states[j], reports[j - 1]));
        lemma_issued_grows(states[j - 1], inputs[j - 1], states[j], reports[j - 1]);
    }
}

/// A level that exists after gameplay has been left was made of handles
/// that had not been issued when it was left.
proof fn lemma_level_is_new(
    states: Seq<SessionView>,
    inputs: Seq<TickInput>,
    reports: Seq<TickReport>,
    k: int,
    j: int,
)
    requires
        is_run(states, inputs, reports),
        0 <= k <= j < states.len(),
        states[k].level is None,
        states[j].level is Some,
    ensures
        states[j].level->0.fresh(states[k].issued),
    decreases j - k,
{
    assert(k < j);
    assert(ticked(states[j - 1], inputs[j - 1], states[j], reports[j - 1]));
    law_camera_stable(states, inputs, reports, k, j - 1);
    law_run_sound(states, inputs, reports, j - 1);
    if states[j - 1].level is Some {
        lemma_level_is_new(states, inputs, reports, k, j - 1);
    }
}

/// Across a cycle of leaving gameplay and entering it again the camera is
/// the same entity and the level is not: no entity of the new level is the
/// root or the player of the old one.
pub proof fn law_level_replaced(
    states: Seq<SessionView>,
    inputs: Seq<TickInput>,
    reports: Seq<TickReport>,
    i: int,
    k: int,
    j: int,
)
    requires
        is_run(states, inputs, reports),
        0 <= i < k < j < states.len(),
        states[i].state.screen == Screen::Gameplay,
        states[k].state.screen != Screen::Gameplay,
        states[j].state.screen == Screen::Gameplay,
    ensures
        states[j].camera == states[i].camera,
        states[j].nodes.dom().contains(states[i].camera),
        states[i].level is Some,
        states[j].level is Some,
        !states[j].level->0.handles().contains(states[i].level->0.root),
        !states[j].level->0.handles().contains(states[i].level->0.player),
{
    law_run_sound(states, inputs, reports, i);
    law_run_sound(states, inputs, reports, k);
    law_run_sound(states, inputs, reports, j);
    law_camera_stable(states, inputs, reports, i, j);
    law_camera_stable(states, inputs, reports, i, k);
    lemma_level_is_new(states, inputs, reports, k, j);
}

/// An enemy is whole: it lives, and its one child lives and is its body.
pub open spec fn whole(m: Nodes, e: Entity) -> bool {
    &&& m.dom().contains(e)
    &&& m[e].kind == Kind::Enemy
    &&& m[e].children.len() == 1
    &&& m.dom().contains(m[e].children[0])
    &&& m[m[e].children[0]].kind == Kind::EnemyBody
    &&& m[m[e].children[0]].parent == Some(e)
}

/// Two requests for an enemy below the same live parent, flushed together,
/// give exactly two new enemies. Both are children of that parent, in the
/// order of the requests, and each is whole from the moment it exists. The
/// two requests stand for either order of issue.
pub proof fn law_two_enemies(
    m: Nodes,
    issued: Set<Entity>,
    level: Entity,
    first: EnemySpawnCmd,
    second: EnemySpawnCmd,
    outs: Seq<Option<Enemy>>,
)
    requires
        linked(m),
        m.dom().subset_of(issued),
        m.dom().contains(level),
        first.parent == Some(level),
        second.parent == Some(level),
        flush_valid(m, issued, seq![first, second], outs),
    ensures
        outs.len() == 2,
        outs[0] is Some,
        outs[1] is Some,
        outs[0]->0.root != outs[1]->0.root,
        ({
            let after_first = flushed(m, seq![first], outs.take(1));
            let m2 = flushed(m, seq![first, second], outs);
            let e1 = outs[0]->0.root;
            let e2 = outs[1]->0.root;
            &&& whole(after_first, e1)
            &&& after_first[e1].parent == Some(level)
            &&& !after_first.dom().contains(e2)
            &&& whole(m2, e1)
            &&& whole(m2, e2)
            &&& m2[e1].parent == Some(level)
            &&& m2[e2].parent == Some(level)
            &&& m2[e1].pose == first.pos
            &&& m2[e2].pose == second.pos
            &&& m2[level].children == m[level].children.push(e1).push(e2)
            &&& forall|x: Entity|
                m2.dom().contains(x) && m2[x].kind == Kind::Enemy <==> (m.dom().contains(x) && m[x].kind
                    == Kind::Enemy) || x == e1 || x == e2
        }),
{
    let cmds = seq![first, second];
    assert(cmds.drop_last() == seq![first]);
    assert(seq![first].drop_last() == Seq::<EnemySpawnCmd>::empty());
    assert(outs.drop_last() == outs.take(1));
    assert(outs.take(1).drop_last() == Seq::<Option<Enemy>>::empty());
    assert(outs.take(1).last() == outs[0]);
    reveal_with_fuel(flushed, 3);
    reveal_with_fuel(flush_valid, 3);
    reveal_with_fuel(flushed_issued, 3);
    assert(flush_valid(m, issued, seq![first], outs.take(1)));
    let m0 = flushed(m, Seq::<EnemySpawnCmd>::empty(), Seq::<Option<Enemy>>::empty());
    assert(m0 == m);
    let i0 = flushed_issued(issued, Seq::<Option<Enemy>>::empty());
    assert(i0 == issued);
    assert(outs[0] is Some);
    let en1 = outs[0]->0;
    let m1 = flushed(m, seq![first], outs.take(1));
    assert(m1 == with_enemy(m, first, en1));
    assert(m1.dom().contains(level));
    assert(outs[1] is Some);
    let en2 = outs[1]->0;
    let i1 = flushed_issued(issued, outs.take(1));
    assert(i1 == issued.insert(en1.root).insert(en1.body));
    let m2 = flushed(m, cmds, outs);
    assert(m2 == with_enemy(m1, second, en2));
    assert(m1[en1.root].children == Seq::<Entity>::empty().push(en1.body));
    assert(m2[en2.root].children == Seq::<Entity>::empty().push(en2.body));
    assert(m2[level].children == m[level].children.push(en1.root).push(en2.root));
}

} // verus!
