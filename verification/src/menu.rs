use vstd::prelude::*;

use crate::ids::Pid;

verus! {

/// Whether an application has a menu open.
#[derive(Clone, Copy, Debug, PartialEq, Eq, Structural)]
pub enum MenuState {
    Closed,
    Open(Pid),
}

/// A request for the event tap.
#[derive(Clone, Copy, Debug, PartialEq, Eq, Structural)]
pub enum EventTapRequest {
    SetFocusFollowsMouseEnabled(bool),
}

/// What the menu tracking reacts to.
#[derive(Clone, Copy, Debug, PartialEq, Eq, Structural)]
pub enum MenuEvent {
    /// Application `pid` opened a menu.
    MenuOpened(Pid),
    /// Application `pid` closed its menu.
    MenuClosed(Pid),
    /// Application `pid` stopped being the active application.
    ApplicationDeactivated(Pid),
    /// Application `pid` became the active application.
    ApplicationGloballyActivated(Pid),
}

/// Application `pid` is done with its menu, if it has one open.
pub open spec fn closed_by(state: MenuState, pid: Pid) -> (MenuState, Option<EventTapRequest>) {
    if state == MenuState::Open(pid) {
        (MenuState::Closed, Some(EventTapRequest::SetFocusFollowsMouseEnabled(true)))
    } else {
        (state, None)
    }
}

/// The menu state after `event`, and the request for the event tap: while a
/// menu is open focus-follows-mouse is off; the menu counts as closed when
/// its application closes it or is deactivated, or when another application
/// is activated.
pub open spec fn menu_step(state: MenuState, event: MenuEvent) -> (MenuState, Option<EventTapRequest>) {
    match event {
        MenuEvent::MenuOpened(pid) => (
            MenuState::Open(pid),
            Some(EventTapRequest::SetFocusFollowsMouseEnabled(false)),
        ),
        MenuEvent::MenuClosed(pid) => closed_by(state, pid),
        MenuEvent::ApplicationDeactivated(pid) => closed_by(state, pid),
        MenuEvent::ApplicationGloballyActivated(pid) => {
            match state {
                MenuState::Open(owner) if owner != pid => (
                    MenuState::Closed,
                    Some(EventTapRequest::SetFocusFollowsMouseEnabled(true)),
                ),
                _ => (state, None),
            }
        },
    }
}

/// Tracks open menus.
pub struct MenuManager {
    pub menu_state: MenuState,
}

impl MenuManager {
    pub fn new() -> (m: MenuManager)
        ensures
            m.menu_state == MenuState::Closed,
    {
        MenuManager { menu_state: MenuState::Closed }
    }

    fn close_for(&mut self, pid: Pid) -> (r: Option<EventTapRequest>)
        ensures
            (final(self).menu_state, r) == closed_by(old(self).menu_state, pid),
    {
        match self.menu_state {
            MenuState::Open(owner) => {
                if owner == pid {
                    self.menu_state = MenuState::Closed;
                    Some(EventTapRequest::SetFocusFollowsMouseEnabled(true))
                } else {
                    None
                }
            },
            MenuState::Closed => None,
        }
    }

    /// Applies `event`; returns the request for the event tap, if any.
    pub fn handle(&mut self, event: MenuEvent) -> (r: Option<EventTapRequest>)
        ensures
            (final(self).menu_state, r) == menu_step(old(self).menu_state, event),
    {
        match event {
            MenuEvent::MenuOpened(pid) => {
                self.menu_state = MenuState::Open(pid);
                Some(EventTapRequest::SetFocusFollowsMouseEnabled(false))
            },
            MenuEvent::MenuClosed(pid) => self.close_for(pid),
            MenuEvent::ApplicationDeactivated(pid) => self.close_for(pid),
            MenuEvent::ApplicationGloballyActivated(pid) => {
                match self.menu_state {
                    MenuState::Open(owner) => {
                        if owner != pid {
                            self.menu_state = MenuState::Closed;
                            Some(EventTapRequest::SetFocusFollowsMouseEnabled(true))
                        } else {
                            None
                        }
                    },
                    MenuState::Closed => None,
                }
            },
        }
    }
}

/// Focus-follows-mouse, as the event tap last heard of it, is on exactly when
/// no menu is open: if that holds before an event and the event tap applies
/// the request the event produces, it holds afterwards.
pub proof fn law_focus_follows_mouse_off_exactly_while_menu_open(
    state: MenuState,
    enabled: bool,
    event: MenuEvent,
)
    requires
        enabled == (state == MenuState::Closed),
    ensures
        ({
            let (next, req) = menu_step(state, event);
            let enabled_after = match req {
                Some(EventTapRequest::SetFocusFollowsMouseEnabled(b)) => b,
                None => enabled,
            };
            enabled_after == (next == MenuState::Closed)
        }),
{
}

/// A menu's state can only be cleared for the application that opened it:
/// events about that application's own deactivation, or about the
/// activation of some other application.
pub proof fn law_menu_closes_only_for_its_owner_or_another_activation(owner: Pid, event: MenuEvent)
    ensures
        menu_step(MenuState::Open(owner), event).0 == MenuState::Closed <==> match event {
            MenuEvent::MenuOpened(_) => false,
            MenuEvent::MenuClosed(p) => p == owner,
            MenuEvent::ApplicationDeactivated(p) => p == owner,
            MenuEvent::ApplicationGloballyActivated(p) => p != owner,
        },
{
}

} // verus!
