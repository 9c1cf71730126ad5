use std::collections::HashSet;

use rift::ids::{SpaceId, WindowId};
use rift::layout::{LayoutEngine, LayoutEvent, VirtualWorkspaceSettings};
use rift::menu::{EventTapRequest, MenuState};
use rift::reactor::{has_window_in_layout, has_windows_in_layout, Event, Reactor, WindowEvent};
use rift::screen::{DisplaySelector, Rect, ScreenId, ScreenInfo};
use rift::space::{FullscreenSpaceTrack, FullscreenWindowTrack};
use rift::topology::{DisplayReconfigFlags, TopologyState};
use rift::transaction::{MouseState, WindowServerId};

const FULLSCREEN_SPACE_BASE: u64 = 0x400000000;

fn new_reactor() -> Reactor {
    Reactor::new(LayoutEngine::new(&VirtualWorkspaceSettings::default()))
}

fn screen_params_event(frames: Vec<Rect>, spaces: Vec<Option<SpaceId>>) -> Event {
    let screens = frames
        .into_iter()
        .zip(spaces)
        .enumerate()
        .map(|(i, (frame, space))| ScreenInfo {
            id: ScreenId::new(i as u32),
            frame,
            space,
            display_uuid: format!("test-display-{i}"),
            name: None,
        })
        .collect();
    Event::ScreenParametersChanged(screens)
}

struct TwoSpaceFixture {
    reactor: Reactor,
    space1: SpaceId,
    space2: SpaceId,
}

fn two_space_fixture() -> TwoSpaceFixture {
    let mut reactor = new_reactor();
    let screen1 = Rect::new(0, 0, 1000, 1000);
    let screen2 = Rect::new(1000, 0, 1000, 1000);
    let space1 = SpaceId::new(1);
    let space2 = SpaceId::new(2);
    reactor.handle_event(screen_params_event(vec![screen1, screen2], vec![Some(space1), Some(space2)]));
    TwoSpaceFixture { reactor, space1, space2 }
}

fn on_screen(space: SpaceId, pid: i32, wins: Vec<WindowId>) -> LayoutEvent {
    LayoutEvent::WindowsOnScreenUpdated(space, pid, wins)
}

#[test]
fn display_churn_quarantine_counters_increment() {
    let mut reactor = new_reactor();
    reactor.display_topology_manager.quarantine_appeared();
    reactor.display_topology_manager.quarantine_destroyed();
    reactor.display_topology_manager.quarantine_resync();

    let stats = reactor.display_topology_manager.quarantine_stats.clone();
    assert_eq!(stats.appeared_dropped, 1);
    assert_eq!(stats.destroyed_dropped, 1);
    assert_eq!(stats.resync_dropped, 1);
}

#[test]
fn display_churn_transitions_to_awaiting_commit_then_stable() {
    let mut reactor = new_reactor();
    let frame = Rect::new(0, 0, 1000, 1000);
    let space = SpaceId::new(1);
    reactor.handle_event(screen_params_event(vec![frame], vec![Some(space)]));

    reactor.display_topology_manager.begin_churn(2, DisplayReconfigFlags::ADD);
    reactor.display_topology_manager.end_churn_to_awaiting(2, DisplayReconfigFlags::ADD);

    assert!(matches!(
        reactor.display_topology_manager.state(),
        TopologyState::AwaitingCommitSnapshot { .. }
    ));

    reactor.handle_event(screen_params_event(vec![frame], vec![Some(space)]));

    assert!(matches!(reactor.display_topology_manager.state(), TopologyState::Stable));
}

#[test]
fn display_churn_quarantines_window_frame_changed_events() {
    let mut reactor = new_reactor();
    reactor.display_topology_manager.begin_churn(3, DisplayReconfigFlags::ADD);

    let quarantined = reactor.maybe_quarantine_during_churn(&WindowEvent::WindowFrameChanged(
        WindowId::new(99, 1),
        Rect::new(10, 10, 500, 400),
    ));
    assert!(quarantined, "WindowFrameChanged should be quarantined during churn");
}

#[test]
fn it_clears_screen_state_when_no_displays_are_reported() {
    let mut reactor = new_reactor();
    let screen = Rect::new(0, 0, 1000, 1000);

    reactor.handle_event(screen_params_event(vec![screen], vec![Some(SpaceId::new(1))]));
    assert_eq!(1, reactor.space_manager.screens().len());

    reactor.handle_event(screen_params_event(vec![], vec![]));
    assert!(reactor.space_manager.screens().is_empty());

    reactor.handle_event(Event::SpaceChanged(vec![]));
    assert!(reactor.space_manager.screens().is_empty());

    reactor.handle_event(screen_params_event(vec![screen], vec![Some(SpaceId::new(1))]));
    assert_eq!(1, reactor.space_manager.screens().len());
}

#[test]
fn duplicate_space_changed_snapshot_is_ignored() {
    let mut reactor = new_reactor();
    let frame = Rect::new(0, 0, 1000, 1000);
    let space = SpaceId::new(1);

    reactor.handle_event(screen_params_event(vec![frame], vec![Some(space)]));
    reactor.handle_event(Event::WindowsDiscovered {
        pid: 1,
        visible: vec![(WindowId::new(1, 1), Rect::new(0, 0, 1000, 1000))],
        minimized: vec![],
    });

    let resp = reactor.handle_event(Event::SpaceChanged(vec![Some(space)]));
    assert!(
        resp.get_visible_windows.is_empty(),
        "duplicate SpaceChanged should not trigger refresh requests: {:?}",
        resp.get_visible_windows
    );
    assert_eq!(reactor.raw_spaces_for_current_screens(), vec![Some(space)]);
}

#[test]
fn display_index_selector_uses_physical_left_to_right_order() {
    let mut reactor = new_reactor();
    let right = Rect::new(200000, 0, 1000, 1000);
    let left = Rect::new(100000, 0, 1000, 1000);
    reactor.handle_event(screen_params_event(
        vec![right, left],
        vec![Some(SpaceId::new(1)), Some(SpaceId::new(2))],
    ));

    let selected = reactor
        .screen_for_selector(&DisplaySelector::Index(0))
        .expect("expected display index 0 to resolve");

    assert_eq!(selected.frame, left);
}

#[test]
fn normal_macos_space_switch_does_not_arm_topology_relayout() {
    let mut reactor = new_reactor();

    let left = Rect::new(0, 0, 1280, 800);
    let right = Rect::new(1280, 0, 1280, 800);

    reactor.handle_event(screen_params_event(
        vec![left, right],
        vec![Some(SpaceId::new(11)), Some(SpaceId::new(22))],
    ));
    assert!(!reactor.space_manager.topology_relayout_pending());

    reactor.handle_event(screen_params_event(
        vec![left, right],
        vec![Some(SpaceId::new(111)), Some(SpaceId::new(222))],
    ));
    assert!(
        !reactor.space_manager.topology_relayout_pending(),
        "Normal same-display macOS Space switches must not be treated as display topology changes"
    );
    assert_eq!(
        reactor.raw_spaces_for_current_screens(),
        vec![Some(SpaceId::new(111)), Some(SpaceId::new(222))],
        "Screen state should still advance to the newly active macOS spaces"
    );
    assert!(reactor.is_space_active(SpaceId::new(111)));
    assert!(reactor.is_space_active(SpaceId::new(222)));
}

fn single_screen(frame: Rect, space: SpaceId, display_uuid: &str) -> Vec<ScreenInfo> {
    vec![ScreenInfo {
        id: ScreenId::new(0),
        frame,
        space: Some(space),
        display_uuid: display_uuid.to_string(),
        name: None,
    }]
}

#[test]
fn fullscreen_space_in_screen_params_does_not_trigger_topology_relayout() {
    let mut reactor = new_reactor();

    let frame = Rect::new(0, 0, 1280, 800);
    let user_space = SpaceId::new(11);
    let fullscreen_space = SpaceId::new(FULLSCREEN_SPACE_BASE + user_space.get());
    let display_uuid = "11111111-1111-1111-1111-111111111111".to_string();

    reactor.handle_event(Event::ScreenParametersChanged(single_screen(frame, user_space, &display_uuid)));
    assert!(!reactor.space_manager.topology_relayout_pending());
    assert_eq!(reactor.space_manager.last_space_for_display_uuid(&display_uuid), Some(user_space));

    reactor.space_manager.track_fullscreen_space(fullscreen_space.get(), FullscreenSpaceTrack::new());
    reactor.handle_event(Event::ScreenParametersChanged(single_screen(
        frame,
        fullscreen_space,
        &display_uuid,
    )));
    assert!(
        !reactor.space_manager.topology_relayout_pending(),
        "fullscreen space transitions should not arm topology relayout"
    );
    assert_eq!(
        reactor.space_manager.last_space_for_display_uuid(&display_uuid),
        Some(user_space),
        "fullscreen spaces should not replace display->user-space history"
    );

    reactor.handle_event(Event::ScreenParametersChanged(single_screen(frame, user_space, &display_uuid)));
    assert!(!reactor.space_manager.topology_relayout_pending());
    assert_eq!(reactor.space_manager.last_space_for_display_uuid(&display_uuid), Some(user_space));
}

#[test]
fn fullscreen_screen_params_preserves_other_display_space() {
    let mut reactor = new_reactor();

    let left = Rect::new(0, 0, 1000, 1000);
    let right = Rect::new(1000, 0, 1000, 1000);
    let left_space_2 = SpaceId::new(12);
    let left_space_1 = SpaceId::new(11);
    let right_space_1 = SpaceId::new(21);
    let right_fullscreen = SpaceId::new(FULLSCREEN_SPACE_BASE + right_space_1.get());

    reactor.handle_event(screen_params_event(vec![left, right], vec![Some(left_space_2), Some(right_space_1)]));
    reactor.space_manager.track_fullscreen_space(right_fullscreen.get(), FullscreenSpaceTrack::new());

    reactor.handle_event(screen_params_event(
        vec![left, right],
        vec![Some(left_space_1), Some(right_fullscreen)],
    ));

    assert_eq!(
        reactor.raw_spaces_for_current_screens(),
        vec![Some(left_space_2), None],
        "Entering fullscreen on one display must not accept a transient user-space change on another display"
    );
}

#[test]
fn fullscreen_space_changed_preserves_other_display_space() {
    let mut reactor = new_reactor();

    let left = Rect::new(0, 0, 1000, 1000);
    let right = Rect::new(1000, 0, 1000, 1000);
    let left_space_2 = SpaceId::new(12);
    let left_space_1 = SpaceId::new(11);
    let right_space_1 = SpaceId::new(21);
    let right_fullscreen = SpaceId::new(FULLSCREEN_SPACE_BASE + right_space_1.get());

    reactor.handle_event(screen_params_event(vec![left, right], vec![Some(left_space_2), Some(right_space_1)]));
    reactor.space_manager.track_fullscreen_space(right_fullscreen.get(), FullscreenSpaceTrack::new());

    reactor.handle_event(Event::SpaceChanged(vec![Some(left_space_1), Some(right_fullscreen)]));

    assert_eq!(
        reactor.raw_spaces_for_current_screens(),
        vec![Some(left_space_2), None],
        "Fullscreen SpaceChanged snapshots must preserve unrelated displays' previous user spaces"
    );
}

#[test]
fn user_space_switch_is_allowed_while_other_display_already_fullscreen() {
    let mut reactor = new_reactor();

    let left = Rect::new(0, 0, 1000, 1000);
    let right = Rect::new(1000, 0, 1000, 1000);
    let left_space_2 = SpaceId::new(12);
    let left_space_1 = SpaceId::new(11);
    let right_space_1 = SpaceId::new(21);
    let right_fullscreen = SpaceId::new(FULLSCREEN_SPACE_BASE + right_space_1.get());

    reactor.handle_event(screen_params_event(vec![left, right], vec![Some(left_space_2), Some(right_space_1)]));
    reactor.space_manager.track_fullscreen_space(right_fullscreen.get(), FullscreenSpaceTrack::new());
    reactor.handle_event(Event::SpaceChanged(vec![Some(left_space_2), Some(right_fullscreen)]));

    reactor.handle_event(Event::SpaceChanged(vec![Some(left_space_1), Some(right_fullscreen)]));

    assert_eq!(
        reactor.raw_spaces_for_current_screens(),
        vec![Some(left_space_1), None],
        "Once another display is already fullscreen, user space switches on this display should still be accepted"
    );
}

#[test]
fn fullscreen_screen_params_preserves_window_layout() {
    let mut reactor = new_reactor();

    let user_space = SpaceId::new(1);
    let fullscreen_space = SpaceId::new(FULLSCREEN_SPACE_BASE + user_space.get());
    let full_screen = Rect::new(0, 0, 1000, 1000);

    reactor.handle_event(screen_params_event(vec![full_screen], vec![Some(user_space)]));
    reactor.layout_engine.handle_event(on_screen(
        user_space,
        1,
        vec![WindowId::new(1, 1), WindowId::new(1, 2), WindowId::new(1, 3)],
    ));
    let layout_before = reactor.layout_engine.windows_in_active_workspace(user_space);

    reactor.space_manager.track_fullscreen_space(fullscreen_space.get(), FullscreenSpaceTrack::new());
    reactor.handle_event(Event::ScreenParametersChanged(vec![ScreenInfo {
        id: ScreenId::new(0),
        frame: full_screen,
        space: Some(fullscreen_space),
        display_uuid: "test-display-0".to_string(),
        name: None,
    }]));

    assert_eq!(
        reactor.space_manager.screens()[0].space, None,
        "fullscreen space should be nulled out, not stored as screen space"
    );

    reactor.handle_event(screen_params_event(vec![full_screen], vec![Some(user_space)]));

    let layout_after = reactor.layout_engine.windows_in_active_workspace(user_space);
    assert_eq!(
        layout_before, layout_after,
        "Window layout on user space must be preserved across fullscreen ScreenParametersChanged"
    );
}

#[test]
fn menu_open_state_is_cleared_when_owner_deactivates() {
    let mut reactor = new_reactor();

    let disable = reactor.handle_event(Event::MenuOpened(1)).event_tap.expect("menu-open should update event tap");
    assert!(matches!(disable, EventTapRequest::SetFocusFollowsMouseEnabled(false)));
    assert_eq!(reactor.menu_manager.menu_state, MenuState::Open(1));

    let enable = reactor
        .handle_event(Event::ApplicationDeactivated(1))
        .event_tap
        .expect("app deactivation should re-enable focus-follows-mouse");
    assert!(matches!(enable, EventTapRequest::SetFocusFollowsMouseEnabled(true)));
    assert_eq!(reactor.menu_manager.menu_state, MenuState::Closed);
}

#[test]
fn stale_menu_open_state_is_cleared_when_other_app_activates() {
    let mut reactor = new_reactor();

    let _ = reactor.handle_event(Event::MenuOpened(1)).event_tap.expect("menu-open should update event tap");
    assert_eq!(reactor.menu_manager.menu_state, MenuState::Open(1));

    let enable = reactor
        .handle_event(Event::ApplicationGloballyActivated(2))
        .event_tap
        .expect("activation of another app should clear stale menu state");
    assert!(matches!(enable, EventTapRequest::SetFocusFollowsMouseEnabled(true)));
    assert_eq!(reactor.menu_manager.menu_state, MenuState::Closed);
}

#[test]
fn handle_layout_response_groups_windows_by_app_and_screen() {
    let mut reactor = new_reactor();
    let screen1 = Rect::new(0, 0, 1000, 1000);
    let screen2 = Rect::new(1000, 0, 1000, 1000);
    reactor.handle_event(screen_params_event(
        vec![screen1, screen2],
        vec![Some(SpaceId::new(1)), Some(SpaceId::new(2))],
    ));

    let request = reactor.handle_layout_response(
        &vec![
            (WindowId::new(1, 1), Rect::new(0, 0, 500, 1000)),
            (WindowId::new(1, 2), Rect::new(500, 0, 500, 1000)),
            (WindowId::new(2, 1), Rect::new(0, 0, 1000, 1000)),
            (WindowId::new(2, 2), Rect::new(1100, 100, 50, 50)),
        ],
        None,
    );
    let raise_windows: HashSet<Vec<WindowId>> = request.raise_windows.into_iter().collect();
    let expected = [
        vec![WindowId::new(1, 1), WindowId::new(1, 2)],
        vec![WindowId::new(2, 1)],
        vec![WindowId::new(2, 2)],
    ]
    .into_iter()
    .collect();
    assert_eq!(raise_windows, expected);
    assert!(request.focus_window.is_none());
}

#[test]
fn handle_layout_response_includes_handles_for_raise_and_focus_windows() {
    let reactor = new_reactor();
    let request = reactor.handle_layout_response(
        &vec![(WindowId::new(1, 1), Rect::new(0, 0, 100, 100))],
        Some(WindowId::new(2, 1)),
    );
    assert!(request.app_handles.contains(&1));
    assert!(request.app_handles.contains(&2));
}

#[test]
fn windows_discovered_does_not_reintroduce_inactive_workspace_window() {
    let mut reactor = new_reactor();
    let screen = Rect::new(0, 0, 1000, 1000);
    let space = SpaceId::new(1);
    let frame = Rect::new(0, 0, 500, 500);

    reactor.handle_event(screen_params_event(vec![screen], vec![Some(space)]));
    reactor.handle_event(Event::WindowsDiscovered {
        pid: 1,
        visible: vec![(WindowId::new(1, 1), frame), (WindowId::new(1, 2), frame)],
        minimized: vec![],
    });

    assert!(reactor.layout_engine.move_window_to_workspace(space, WindowId::new(1, 2), 1));
    assert!(reactor.layout_engine.switch_to_workspace(space, 1));

    reactor.handle_event(Event::WindowsDiscovered {
        pid: 1,
        visible: vec![(WindowId::new(1, 1), frame), (WindowId::new(1, 2), frame)],
        minimized: vec![],
    });

    assert_eq!(reactor.layout_engine.windows_in_active_workspace(space), vec![WindowId::new(1, 2)]);
}

#[test]
fn discovery_minimize_transition_removes_window_from_layout() {
    let mut reactor = new_reactor();
    let screen = Rect::new(0, 0, 1000, 1000);
    let space = SpaceId::new(1);
    let wid = WindowId::new(1, 1);

    reactor.handle_event(screen_params_event(vec![screen], vec![Some(space)]));
    reactor.handle_event(Event::WindowsDiscovered {
        pid: 1,
        visible: vec![(wid, Rect::new(0, 0, 1000, 1000))],
        minimized: vec![],
    });

    assert!(has_window_in_layout(&reactor, space, wid));

    reactor.handle_event(Event::WindowsDiscovered { pid: 1, visible: vec![], minimized: vec![wid] });

    assert!(
        !has_window_in_layout(&reactor, space, wid),
        "minimized window must be removed from layout when discovery reports it minimized"
    );
    assert!(reactor.is_window_minimized(wid), "reactor state must keep the window marked minimized");
}

#[test]
fn discovery_restore_transition_readds_window_to_layout() {
    let mut reactor = new_reactor();
    let screen = Rect::new(0, 0, 1000, 1000);
    let space = SpaceId::new(1);
    let wid = WindowId::new(1, 1);

    reactor.handle_event(screen_params_event(vec![screen], vec![Some(space)]));
    reactor.handle_event(Event::WindowsDiscovered { pid: 1, visible: vec![], minimized: vec![wid] });

    assert!(
        !has_window_in_layout(&reactor, space, wid),
        "startup-minimized window must not be inserted into layout"
    );

    reactor.handle_event(Event::WindowsDiscovered {
        pid: 1,
        visible: vec![(wid, Rect::new(0, 0, 1000, 1000))],
        minimized: vec![],
    });

    assert!(
        has_window_in_layout(&reactor, space, wid),
        "restored window must return to layout when discovery reports it visible again"
    );
    assert!(!reactor.is_window_minimized(wid), "reactor state must clear the minimized flag after restore");
}

#[test]
fn unfullscreen_restores_window_tracking() {
    let mut reactor = new_reactor();

    let user_space = SpaceId::new(1);
    let fullscreen_space = SpaceId::new(FULLSCREEN_SPACE_BASE + user_space.get());
    let full_screen = Rect::new(0, 0, 1000, 1000);

    reactor.handle_event(screen_params_event(vec![full_screen], vec![Some(user_space)]));
    reactor.layout_engine.handle_event(on_screen(user_space, 1, vec![WindowId::new(1, 1)]));

    let window_id = WindowId::new(1, 1);
    reactor.space_manager.track_fullscreen_space(
        fullscreen_space.get(),
        FullscreenSpaceTrack {
            windows: vec![FullscreenWindowTrack {
                pid: 1,
                window_id: Some(window_id),
                last_known_user_space: Some(user_space),
                last_seen_fullscreen_space: fullscreen_space,
            }],
        },
    );

    reactor.handle_event(Event::SpaceChanged(vec![Some(fullscreen_space)]));

    let resp = reactor.handle_event(Event::SpaceChanged(vec![Some(user_space)]));
    assert!(
        resp.get_visible_windows.contains(&1),
        "Should send GetVisibleWindows to app on unfullscreen"
    );

    assert!(
        !reactor.space_manager.is_fullscreen_tracked(fullscreen_space.get()),
        "Fullscreen track should be removed from space manager"
    );
}

#[test]
fn window_removed_from_source_space_when_dest_claims_it_first() {
    let TwoSpaceFixture { mut reactor, space1, space2 } = two_space_fixture();
    let pid = 42;
    let wid = WindowId::new(pid, 1);

    reactor.layout_engine.handle_event(on_screen(space1, pid, vec![wid]));
    assert!(has_windows_in_layout(&reactor, space1, pid));

    reactor.layout_engine.handle_event(on_screen(space2, pid, vec![wid]));

    reactor.layout_engine.handle_event(on_screen(space1, pid, vec![]));

    assert!(
        !has_windows_in_layout(&reactor, space1, pid),
        "window must be removed from source space after destination claimed it"
    );
    assert!(
        has_windows_in_layout(&reactor, space2, pid),
        "window must remain in destination space"
    );
}

#[test]
fn empty_update_removes_window_when_vwm_was_preupdated() {
    let TwoSpaceFixture { mut reactor, space1, space2 } = two_space_fixture();
    let pid = 42;
    let wid = WindowId::new(pid, 1);

    reactor.layout_engine.handle_event(on_screen(space1, pid, vec![wid]));
    assert!(has_windows_in_layout(&reactor, space1, pid));

    let space2_workspace = reactor
        .layout_engine
        .active_workspace(space2)
        .expect("space2 must have an active workspace");
    reactor.layout_engine.assign_window_to_workspace(space2, wid, space2_workspace);

    reactor.layout_engine.handle_event(on_screen(space1, pid, vec![]));

    assert!(
        !has_windows_in_layout(&reactor, space1, pid),
        "window must be removed from source space when VWM was pre-updated (pre-pass scenario)"
    );

    reactor.layout_engine.handle_event(on_screen(space2, pid, vec![wid]));
    assert!(has_windows_in_layout(&reactor, space2, pid));
}

#[test]
fn empty_update_only_removes_same_app_windows_moved_to_another_space() {
    let TwoSpaceFixture { mut reactor, space1, space2 } = two_space_fixture();
    let pid = 42;
    let moved = WindowId::new(pid, 1);
    let retained = WindowId::new(pid, 2);

    reactor.layout_engine.handle_event(on_screen(space1, pid, vec![moved, retained]));
    assert!(has_window_in_layout(&reactor, space1, moved));
    assert!(has_window_in_layout(&reactor, space1, retained));

    let space2_workspace = reactor
        .layout_engine
        .active_workspace(space2)
        .expect("space2 must have an active workspace");
    reactor.layout_engine.assign_window_to_workspace(space2, moved, space2_workspace);

    reactor.layout_engine.handle_event(on_screen(space1, pid, vec![]));

    assert!(
        !has_window_in_layout(&reactor, space1, moved),
        "moved window must be removed from the source layout tree"
    );
    assert!(
        has_window_in_layout(&reactor, space1, retained),
        "same-app window still assigned to source space must be preserved"
    );

    reactor.layout_engine.handle_event(on_screen(space2, pid, vec![moved]));
    assert!(has_window_in_layout(&reactor, space2, moved));
}

#[test]
fn window_preserved_in_space_on_empty_discovery_without_cross_space_move() {
    let mut reactor = new_reactor();
    let screen = Rect::new(0, 0, 1000, 1000);
    let space = SpaceId::new(1);
    let pid = 42;
    let wid = WindowId::new(pid, 1);

    reactor.handle_event(screen_params_event(vec![screen], vec![Some(space)]));

    reactor.layout_engine.handle_event(on_screen(space, pid, vec![wid]));
    assert!(has_windows_in_layout(&reactor, space, pid));

    reactor.layout_engine.handle_event(on_screen(space, pid, vec![]));

    assert!(
        has_windows_in_layout(&reactor, space, pid),
        "window must be preserved when empty update has no cross-space move (login screen / AX failure)"
    );
}

#[test]
fn rift_frame_notifications_do_not_start_drag_swap_while_mouse_down() {
    let mut reactor = new_reactor();
    let space = SpaceId::new(1);
    reactor.handle_event(screen_params_event(vec![Rect::new(0, 0, 1000, 1000)], vec![Some(space)]));
    reactor.handle_event(Event::WindowsDiscovered {
        pid: 1,
        visible: vec![
            (WindowId::new(1, 1), Rect::new(0, 0, 500, 1000)),
            (WindowId::new(1, 2), Rect::new(500, 0, 500, 1000)),
        ],
        minimized: vec![],
    });

    let wsid = WindowServerId::new(1);
    let txid = reactor.transaction_manager.generate_next_txid(wsid);
    let target = Rect::new(0, 0, 500, 1000);
    reactor.transaction_manager.store_txid(wsid, txid, target);

    let intermediate = Rect::new(25, 0, 500, 1000);
    let changed = reactor.handle_window_frame_changed(wsid, intermediate, Some(txid), Some(MouseState::Down));

    assert!(!changed);
    assert!(!reactor.is_in_drag());
    assert!(reactor.transaction_manager.get_target_frame(wsid).is_some());
}

#[test]
fn it_keeps_discovered_windows_on_their_initial_screen() {
    let mut reactor = new_reactor();
    let screen1 = Rect::new(0, 0, 1000, 1000);
    let screen2 = Rect::new(1000, 0, 1000, 1000);
    reactor.handle_event(screen_params_event(
        vec![screen1, screen2],
        vec![Some(SpaceId::new(1)), Some(SpaceId::new(2))],
    ));

    reactor.handle_event(Event::WindowsDiscovered {
        pid: 1,
        visible: vec![
            (WindowId::new(1, 1), Rect::new(0, 0, 100, 100)),
            (WindowId::new(1, 2), Rect::new(1100, 100, 100, 100)),
        ],
        minimized: vec![],
    });

    assert_eq!(reactor.layout_engine.windows_in_active_workspace(SpaceId::new(1)), vec![WindowId::new(1, 1)]);
    assert_eq!(reactor.layout_engine.windows_in_active_workspace(SpaceId::new(2)), vec![WindowId::new(1, 2)]);
}

#[test]
fn discovery_after_display_change_places_window_on_correct_display() {
    let TwoSpaceFixture { mut reactor, space1, space2 } = two_space_fixture();

    // Window starts on screen1.
    reactor.handle_event(Event::WindowsDiscovered {
        pid: 1,
        visible: vec![(WindowId::new(1, 1), Rect::new(0, 0, 1000, 1000))],
        minimized: vec![],
    });
    assert!(has_windows_in_layout(&reactor, space1, 1));

    // The window has moved to screen2.
    reactor.handle_event(Event::WindowsDiscovered {
        pid: 1,
        visible: vec![(WindowId::new(1, 1), Rect::new(1100, 100, 50, 50))],
        minimized: vec![],
    });

    assert!(
        !has_windows_in_layout(&reactor, space1, 1),
        "space1 layout tree must not contain the window after it moved to screen2"
    );
    assert!(
        has_windows_in_layout(&reactor, space2, 1),
        "space2 layout tree must contain the window after it moved to screen2"
    );
}
