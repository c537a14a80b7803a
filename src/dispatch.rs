use vstd::prelude::*;
use crate::combo::KeyCombination;
use crate::registry::{Registry, opt_view};

verus! {

/// Whether a hotkey went down or came up.
#[derive(Clone, Copy, Debug, PartialEq, Eq, Structural)]
pub enum KeyState {
    Pressed,
    Released,
}

/// One event from the global hotkey listener.
#[derive(Clone, Copy, Debug, PartialEq, Eq, Structural)]
pub struct HotkeyEvent {
    pub combo: KeyCombination,
    pub state: KeyState,
}

/// No bound combination held, or the bound combination held down now.
#[derive(Clone, Copy, Debug, PartialEq, Eq, Structural)]
pub enum DispatchState {
    Idle,
    Pressed(KeyCombination),
}

/// The next state and the target to launch, if any, after an event.
///
/// A press of a bound combination launches its target, unless that combination
/// is already held (a key repeat). A release of the held combination returns
/// to idle. Everything else, and any event of an unbound combination, changes
/// nothing and launches nothing.
pub open spec fn step(s: DispatchState, m: Map<KeyCombination, Seq<char>>, e: HotkeyEvent) -> (
    DispatchState,
    Option<Seq<char>>,
) {
    match e.state {
        KeyState::Pressed => if m.contains_key(e.combo) && s != DispatchState::Pressed(e.combo) {
            (DispatchState::Pressed(e.combo), Some(m[e.combo]))
        } else {
            (s, None)
        },
        KeyState::Released => if s == DispatchState::Pressed(e.combo) {
            (DispatchState::Idle, None)
        } else {
            (s, None)
        },
    }
}

/// A release never launches anything.
pub proof fn lemma_release_never_launches(
    s: DispatchState,
    m: Map<KeyCombination, Seq<char>>,
    e: HotkeyEvent,
)
    requires
        e.state == KeyState::Released,
    ensures
        step(s, m, e).1 is None,
{
}

/// Pressing and releasing a bound combination launches its target once, on
/// the press, and leaves the dispatcher idle.
pub proof fn lemma_press_release_launches_once(
    s: DispatchState,
    m: Map<KeyCombination, Seq<char>>,
    c: KeyCombination,
)
    requires
        m.contains_key(c),
        s != DispatchState::Pressed(c),
    ensures
        ({
            let press = HotkeyEvent { combo: c, state: KeyState::Pressed };
            let release = HotkeyEvent { combo: c, state: KeyState::Released };
            let (s1, l1) = step(s, m, press);
            let (s2, l2) = step(s1, m, release);
            &&& l1 == Some(m[c])
            &&& l2 is None
            &&& s2 == DispatchState::Idle
        }),
{
}

/// Resolves hotkey events against the registry.
pub struct Dispatcher {
    pub state: DispatchState,
}

impl Dispatcher {
    pub fn new() -> (r: Dispatcher)
        ensures
            r.state == DispatchState::Idle,
    {
        Dispatcher { state: DispatchState::Idle }
    }

    /// Handles one event; returns the target to launch.
    pub fn handle(&mut self, registry: &Registry, event: &HotkeyEvent) -> (r: Option<String>)
        requires
            registry.wf(),
        ensures
            (final(self).state, opt_view(r)) == step(old(self).state, registry@, *event),
    {
        let held = self.state == DispatchState::Pressed(event.combo);
        match event.state {
            KeyState::Pressed => {
                if held {
                    return None;
                }
                let target = registry.resolve(&event.combo);
                if target.is_some() {
                    self.state = DispatchState::Pressed(event.combo);
                }
                target
            },
            KeyState::Released => {
                if held {
                    self.state = DispatchState::Idle;
                }
                None
            },
        }
    }
}

} // verus!
