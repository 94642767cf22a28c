//! The three axes of game state (screen, menu, pause) and the rules by which
//! one tick's signals move them.
//!
//! A tick has two phases. First the guards are read against the settled
//! state and turned into requests, one per axis. Then the requests are
//! settled, screen first, then menu, then pause, together with what entering
//! and leaving a state brings about. Nothing changes between the two.

use vstd::prelude::*;

verus! {

/// The top-level game mode.
#[derive(Clone, Copy, Debug, PartialEq, Eq, Hash, Structural)]
pub enum Screen {
    Title,
    /// Gameplay was asked for and the level's assets are not ready yet.
    Loading,
    Gameplay,
}

/// The modal overlay that is open, if any.
#[derive(Clone, Copy, Debug, PartialEq, Eq, Hash, Structural)]
pub enum Menu {
    /// No menu is open.
    Closed,
    Pause,
    Death,
}

/// Whether gameplay is frozen.
#[derive(Clone, Copy, Debug, PartialEq, Eq, Hash, Structural)]
pub struct Pause(pub bool);

/// The settled value of the three axes.
#[derive(Clone, Copy, Debug, PartialEq, Eq, Structural)]
pub struct GameState {
    pub screen: Screen,
    pub menu: Menu,
    pub pause: Pause,
}

/// What one tick observes.
#[derive(Clone, Copy, Debug, PartialEq, Eq, Structural)]
pub struct Signals {
    /// The cancel / menu key went down this tick.
    pub pause_pressed: bool,
    /// The open menu asked to be closed.
    pub close_menu: bool,
    /// A screen was asked for.
    pub goto: Option<Screen>,
    /// The player's health is above zero.
    pub player_alive: bool,
    /// Every asset of the level has been loaded.
    pub assets_ready: bool,
}

/// The pending value of each axis: what the first phase of a tick asks for.
#[derive(Clone, Copy, Debug, PartialEq, Eq, Structural)]
pub struct Requests {
    pub screen: Option<Screen>,
    pub menu: Option<Menu>,
    pub pause: Option<Pause>,
}

impl GameState {
    /// Menu and pause go together, and a menu is open only during gameplay.
    pub open spec fn consistent(self) -> bool {
        &&& self.pause.0 == (self.menu != Menu::Closed)
        &&& self.menu != Menu::Closed ==> self.screen == Screen::Gameplay
    }

    pub open spec fn spec_initial() -> GameState {
        GameState { screen: Screen::Title, menu: Menu::Closed, pause: Pause(false) }
    }

    /// The state a session starts in.
    #[verifier::when_used_as_spec(spec_initial)]
    pub fn initial() -> (s: GameState)
        ensures
            s == GameState::spec_initial(),
    {
        GameState { screen: Screen::Title, menu: Menu::Closed, pause: Pause(false) }
    }

    /// The screen that the signals lead to. Gameplay is entered only with the
    /// assets ready; until then the loading screen stands for it. A request
    /// for gameplay while it runs changes nothing.
    pub open spec fn target_screen(self, s: Signals) -> Screen {
        match s.goto {
            Some(Screen::Title) => Screen::Title,
            Some(_) => if self.screen == Screen::Gameplay || s.assets_ready {
                Screen::Gameplay
            } else {
                Screen::Loading
            },
            None => if self.screen == Screen::Loading && s.assets_ready {
                Screen::Gameplay
            } else {
                self.screen
            },
        }
    }

    /// The requests of one tick. With no menu open during gameplay, a dead
    /// player asks for the death menu, and otherwise the pause key asks for
    /// the pause menu. With a menu open, only closing it can be asked for.
    pub open spec fn decided(self, s: Signals) -> Requests {
        let target = self.target_screen(s);
        let screen = if target != self.screen {
            Some(target)
        } else {
            None
        };
        if self.screen == Screen::Gameplay && self.menu == Menu::Closed {
            if !s.player_alive {
                Requests { screen, menu: Some(Menu::Death), pause: Some(Pause(true)) }
            } else if s.pause_pressed {
                Requests { screen, menu: Some(Menu::Pause), pause: Some(Pause(true)) }
            } else {
                Requests { screen, menu: None, pause: None }
            }
        } else if s.close_menu && self.menu != Menu::Closed {
            Requests { screen, menu: Some(Menu::Closed), pause: None }
        } else {
            Requests { screen, menu: None, pause: None }
        }
    }

    /// The state once the requests are applied. Entering or leaving gameplay
    /// closes the menu and lifts the pause whatever was asked; closing the
    /// menu during gameplay lifts the pause.
    pub open spec fn settled(self, r: Requests) -> GameState {
        let screen = match r.screen {
            Some(s) => s,
            None => self.screen,
        };
        if (screen == Screen::Gameplay) != (self.screen == Screen::Gameplay) {
            GameState { screen, menu: Menu::Closed, pause: Pause(false) }
        } else {
            let menu = match r.menu {
                Some(m) => m,
                None => self.menu,
            };
            let pause = if menu == Menu::Closed && self.menu != Menu::Closed && screen == Screen::Gameplay {
                Pause(false)
            } else {
                match r.pause {
                    Some(p) => p,
                    None => self.pause,
                }
            };
            GameState { screen, menu, pause }
        }
    }

    /// The state after one tick with the given signals.
    pub open spec fn stepped(self, s: Signals) -> GameState {
        self.settled(self.decided(s))
    }

    /// The state after the ticks of `signals`, in order.
    pub open spec fn ran(self, signals: Seq<Signals>) -> GameState
        decreases signals.len(),
    {
        if signals.len() == 0 {
            self
        } else {
            self.ran(signals.drop_last()).stepped(signals.last())
        }
    }

    pub open spec fn spec_sun_turns(&self) -> bool {
        self.screen == Screen::Gameplay && !self.pause.0
    }

    /// Whether the level's light keeps turning: during gameplay, while the
    /// game is not paused.
    #[verifier::when_used_as_spec(spec_sun_turns)]
    pub fn sun_turns(&self) -> (r: bool)
        ensures
            r == self.spec_sun_turns(),
    {
        self.screen == Screen::Gameplay && !self.pause.0
    }

    /// First phase of a tick: reads the guards against the settled state.
    pub fn decide(&self, s: &Signals) -> (r: Requests)
        ensures
            r == self.decided(*s),
    {
        let target = match s.goto {
            Some(Screen::Title) => Screen::Title,
            Some(_) => if self.screen == Screen::Gameplay || s.assets_ready {
                Screen::Gameplay
            } else {
                Screen::Loading
            },
            None => if self.screen == Screen::Loading && s.assets_ready {
                Screen::Gameplay
            } else {
                self.screen
            },
        };
        let screen = if target != self.screen {
            Some(target)
        } else {
            None
        };
        if self.screen == Screen::Gameplay && self.menu == Menu::Closed {
            if !s.player_alive {
                Requests { screen, menu: Some(Menu::Death), pause: Some(Pause(true)) }
            } else if s.pause_pressed {
                Requests { screen, menu: Some(Menu::Pause), pause: Some(Pause(true)) }
            } else {
                Requests { screen, menu: None, pause: None }
            }
        } else if s.close_menu && self.menu != Menu::Closed {
            Requests { screen, menu: Some(Menu::Closed), pause: None }
        } else {
            Requests { screen, menu: None, pause: None }
        }
    }

    /// Second phase of a tick: applies the requests, screen first.
    pub fn settle(&self, r: &Requests) -> (next: GameState)
        ensures
            next == self.settled(*r),
    {
        let screen = match r.screen {
            Some(s) => s,
            None => self.screen,
        };
        if (screen == Screen::Gameplay) != (self.screen == Screen::Gameplay) {
            return GameState { screen, menu: Menu::Closed, pause: Pause(false) };
        }
        let menu = match r.menu {
            Some(m) => m,
            None => self.menu,
        };
        let pause = if menu == Menu::Closed && self.menu != Menu::Closed && screen == Screen::Gameplay {
            Pause(false)
        } else {
            match r.pause {
                Some(p) => p,
                None => self.pause,
            }
        };
        GameState { screen, menu, pause }
    }

    /// One whole tick of the state machine.
    pub fn step(&self, s: &Signals) -> (next: GameState)
        ensures
            next == self.stepped(*s),
    {
        let r = self.decide(s);
        self.settle(&r)
    }
}

} // verus!
