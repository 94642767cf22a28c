use gameplay::state::{GameState, Menu, Pause, Requests, Screen, Signals};

fn st(screen: Screen, menu: Menu, pause: bool) -> GameState {
    GameState { screen, menu, pause: Pause(pause) }
}

fn quiet() -> Signals {
    Signals { pause_pressed: false, close_menu: false, goto: None, player_alive: true, assets_ready: true }
}

fn consistent(s: &GameState) -> bool {
    s.pause.0 == (s.menu != Menu::Closed) && (s.menu == Menu::Closed || s.screen == Screen::Gameplay)
}

#[test]
fn initial_state_is_title_without_menu() {
    assert_eq!(GameState::initial(), st(Screen::Title, Menu::Closed, false));
}

#[test]
fn quiet_tick_changes_nothing() {
    for s in [
        st(Screen::Title, Menu::Closed, false),
        st(Screen::Gameplay, Menu::Closed, false),
        st(Screen::Gameplay, Menu::Pause, true),
        st(Screen::Gameplay, Menu::Death, true),
    ] {
        assert_eq!(s.step(&quiet()), s);
        assert_eq!(s.decide(&quiet()), Requests { screen: None, menu: None, pause: None });
    }
}

#[test]
fn pause_key_opens_pause_menu() {
    let s = st(Screen::Gameplay, Menu::Closed, false);
    let sig = Signals { pause_pressed: true, ..quiet() };
    assert_eq!(
        s.decide(&sig),
        Requests { screen: None, menu: Some(Menu::Pause), pause: Some(Pause(true)) }
    );
    assert_eq!(s.step(&sig), st(Screen::Gameplay, Menu::Pause, true));
}

#[test]
fn pause_key_is_blocked_while_a_menu_is_open() {
    let sig = Signals { pause_pressed: true, ..quiet() };
    for menu in [Menu::Pause, Menu::Death] {
        let s = st(Screen::Gameplay, menu, true);
        assert_eq!(s.decide(&sig), Requests { screen: None, menu: None, pause: None });
        assert_eq!(s.step(&sig), s);
    }
}

#[test]
fn pause_key_outside_gameplay_does_nothing() {
    let sig = Signals { pause_pressed: true, ..quiet() };
    for screen in [Screen::Title, Screen::Loading] {
        let s = st(screen, Menu::Closed, false);
        let ready = Signals { assets_ready: false, ..sig };
        assert_eq!(s.step(&ready), s);
    }
}

#[test]
fn closing_the_menu_lifts_the_pause() {
    let sig = Signals { close_menu: true, ..quiet() };
    for menu in [Menu::Pause, Menu::Death] {
        let s = st(Screen::Gameplay, menu, true);
        assert_eq!(s.decide(&sig), Requests { screen: None, menu: Some(Menu::Closed), pause: None });
        assert_eq!(s.step(&sig), st(Screen::Gameplay, Menu::Closed, false));
    }
}

#[test]
fn dead_player_opens_death_menu_whatever_the_pause_flag() {
    let sig = Signals { player_alive: false, ..quiet() };
    for pause in [false, true] {
        let s = st(Screen::Gameplay, Menu::Closed, pause);
        assert_eq!(s.step(&sig), st(Screen::Gameplay, Menu::Death, true));
    }
}

#[test]
fn death_comes_before_the_pause_key() {
    let s = st(Screen::Gameplay, Menu::Closed, false);
    let sig = Signals { player_alive: false, pause_pressed: true, ..quiet() };
    assert_eq!(s.step(&sig), st(Screen::Gameplay, Menu::Death, true));
}

#[test]
fn death_waits_while_pause_menu_is_open() {
    let s = st(Screen::Gameplay, Menu::Pause, true);
    let sig = Signals { player_alive: false, ..quiet() };
    assert_eq!(s.step(&sig), s);
    let closing = Signals { close_menu: true, ..sig };
    let after = s.step(&closing);
    assert_eq!(after, st(Screen::Gameplay, Menu::Closed, false));
    assert_eq!(after.step(&sig), st(Screen::Gameplay, Menu::Death, true));
}

#[test]
fn leaving_gameplay_closes_menu_and_lifts_pause() {
    let sig = Signals { goto: Some(Screen::Title), ..quiet() };
    for (menu, pause) in [(Menu::Closed, false), (Menu::Pause, true), (Menu::Death, true)] {
        let s = st(Screen::Gameplay, menu, pause);
        assert_eq!(s.step(&sig), st(Screen::Title, Menu::Closed, false));
    }
    let both = Signals { goto: Some(Screen::Title), pause_pressed: true, player_alive: false, ..quiet() };
    assert_eq!(
        st(Screen::Gameplay, Menu::Closed, false).step(&both),
        st(Screen::Title, Menu::Closed, false)
    );
}

#[test]
fn entering_gameplay_needs_ready_assets() {
    let title = st(Screen::Title, Menu::Closed, false);
    let ask = Signals { goto: Some(Screen::Gameplay), assets_ready: false, ..quiet() };
    let loading = title.step(&ask);
    assert_eq!(loading, st(Screen::Loading, Menu::Closed, false));
    let wait = Signals { assets_ready: false, ..quiet() };
    assert_eq!(loading.step(&wait), loading);
    assert_eq!(loading.step(&quiet()), st(Screen::Gameplay, Menu::Closed, false));
    let ready_ask = Signals { goto: Some(Screen::Gameplay), ..quiet() };
    assert_eq!(title.step(&ready_ask), st(Screen::Gameplay, Menu::Closed, false));
}

#[test]
fn asking_for_gameplay_during_gameplay_changes_nothing() {
    let s = st(Screen::Gameplay, Menu::Pause, true);
    for goto in [Screen::Gameplay, Screen::Loading] {
        for ready in [false, true] {
            let sig = Signals { goto: Some(goto), assets_ready: ready, ..quiet() };
            assert_eq!(s.step(&sig), s);
        }
    }
}

#[test]
fn settle_applies_screen_before_menu() {
    let s = st(Screen::Gameplay, Menu::Closed, false);
    let r = Requests { screen: Some(Screen::Title), menu: Some(Menu::Pause), pause: Some(Pause(true)) };
    assert_eq!(s.settle(&r), st(Screen::Title, Menu::Closed, false));
    let r2 = Requests { screen: None, menu: Some(Menu::Pause), pause: Some(Pause(true)) };
    assert_eq!(s.settle(&r2), st(Screen::Gameplay, Menu::Pause, true));
}

#[test]
fn sun_turns_only_in_running_gameplay() {
    assert!(st(Screen::Gameplay, Menu::Closed, false).sun_turns());
    assert!(!st(Screen::Gameplay, Menu::Pause, true).sun_turns());
    assert!(!st(Screen::Gameplay, Menu::Death, true).sun_turns());
    assert!(!st(Screen::Title, Menu::Closed, false).sun_turns());
    assert!(!st(Screen::Loading, Menu::Closed, false).sun_turns());
}

#[test]
fn menu_and_pause_stay_together_on_every_path() {
    // Every sequence of four signals out of a representative set, from the
    // initial state.
    let mut choices = Vec::new();
    for pause_pressed in [false, true] {
        for close_menu in [false, true] {
            for player_alive in [false, true] {
                for assets_ready in [false, true] {
                    for goto in [None, Some(Screen::Title), Some(Screen::Gameplay)] {
                        choices.push(Signals { pause_pressed, close_menu, goto, player_alive, assets_ready });
                    }
                }
            }
        }
    }
    let mut frontier = vec![GameState::initial()];
    for _ in 0..4 {
        let mut next = Vec::new();
        for s in &frontier {
            for sig in &choices {
                let n = s.step(sig);
                assert!(consistent(&n), "{s:?} {sig:?} {n:?}");
                assert!(!(n.menu == Menu::Closed && n.pause.0));
                assert!(!(n.menu == Menu::Pause && !n.pause.0));
                if !next.contains(&n) {
                    next.push(n);
                }
            }
        }
        frontier = next;
    }
    assert!(frontier.contains(&GameState {
        screen: Screen::Gameplay,
        menu: Menu::Death,
        pause: Pause(true)
    }));
}
