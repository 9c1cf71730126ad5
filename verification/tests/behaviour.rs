use rift::ids::{SpaceId, WindowId};
use rift::layout::{LayoutEngine, LayoutEvent, VirtualWorkspaceSettings};
use rift::menu::{EventTapRequest, MenuState};
use rift::reactor::{has_window_in_layout, Event, Reactor, WindowEvent};
use rift::screen::{DisplaySelector, Rect, ScreenId, ScreenInfo};
use rift::space::{FullscreenSpaceTrack, FullscreenWindowTrack};
use rift::topology::{DisplayReconfigFlags, TopologyState};
use rift::transaction::{FrameChange, MouseState, TransactionId, WindowServerId};

fn reactor_with_screens(frames: Vec<Rect>, spaces: Vec<Option<SpaceId>>) -> Reactor {
    let mut reactor = Reactor::new(LayoutEngine::new(&VirtualWorkspaceSettings::default()));
    reactor.handle_event(screens_event(frames, spaces, "display"));
    reactor
}

fn screens_event(frames: Vec<Rect>, spaces: Vec<Option<SpaceId>>, prefix: &str) -> Event {
    let screens = frames
        .into_iter()
        .zip(spaces)
        .enumerate()
        .map(|(i, (frame, space))| ScreenInfo {
            id: ScreenId::new(i as u32),
            frame,
            space,
            display_uuid: format!("{prefix}-{i}"),
            name: Some(format!("Display {i}")),
        })
        .collect();
    Event::ScreenParametersChanged(screens)
}

#[test]
fn default_settings_give_four_workspaces() {
    let settings = VirtualWorkspaceSettings::default();
    assert_eq!(settings.default_workspace_count, 4);
    let mut engine = LayoutEngine::new(&settings);
    let space = SpaceId::new(7);
    assert_eq!(engine.active_workspace(space), None);
    engine.register_space(space);
    let ws = engine.active_workspace(space).expect("a registered space has an active workspace");
    assert_eq!(ws.space, space);
    assert_eq!(ws.index, 0);
    assert!(engine.switch_to_workspace(space, 3));
    assert_eq!(engine.active_workspace(space).map(|w| w.index), Some(3));
    assert!(!engine.switch_to_workspace(space, 4));
    assert_eq!(engine.active_workspace(space).map(|w| w.index), Some(3));
    assert!(!engine.switch_to_workspace(SpaceId::new(8), 0));
}

#[test]
fn zero_workspaces_leave_a_space_without_layout() {
    let mut engine = LayoutEngine::new(&VirtualWorkspaceSettings { default_workspace_count: 0 });
    let space = SpaceId::new(1);
    engine.register_space(space);
    assert_eq!(engine.active_workspace(space), None);
    engine.handle_event(LayoutEvent::WindowsOnScreenUpdated(space, 1, vec![WindowId::new(1, 1)]));
    assert!(engine.windows_in_active_workspace(space).is_empty());
    assert_eq!(engine.workspace_for_window(WindowId::new(1, 1)), None);
}

#[test]
fn assigning_to_a_workspace_of_another_or_unknown_space_is_refused() {
    let mut engine = LayoutEngine::new(&VirtualWorkspaceSettings::default());
    let s1 = SpaceId::new(1);
    let s2 = SpaceId::new(2);
    engine.register_space(s1);
    let ws1 = engine.active_workspace(s1).unwrap();
    let w = WindowId::new(5, 1);
    assert!(!engine.assign_window_to_workspace(s2, w, ws1));
    assert!(!engine.assign_window_to_workspace(s2, w, rift::ids::WorkspaceId { space: s2, index: 0 }));
    assert!(!engine.assign_window_to_workspace(s1, w, rift::ids::WorkspaceId { space: s1, index: 4 }));
    assert_eq!(engine.workspace_for_window(w), None);
    assert!(engine.assign_window_to_workspace(s1, w, ws1));
    assert_eq!(engine.workspace_for_window(w), Some(ws1));
}

#[test]
fn report_keeps_tree_order_and_appends_new_windows() {
    let mut engine = LayoutEngine::new(&VirtualWorkspaceSettings::default());
    let space = SpaceId::new(1);
    engine.register_space(space);
    let a = WindowId::new(1, 1);
    let b = WindowId::new(1, 2);
    let c = WindowId::new(1, 3);
    let other = WindowId::new(2, 1);
    engine.handle_event(LayoutEvent::WindowsOnScreenUpdated(space, 2, vec![other]));
    engine.handle_event(LayoutEvent::WindowsOnScreenUpdated(space, 1, vec![b, a, b]));
    assert_eq!(engine.windows_in_active_workspace(space), vec![other, b, a]);
    // A non-empty report drops the windows of the application it omits.
    engine.handle_event(LayoutEvent::WindowsOnScreenUpdated(space, 1, vec![c, a]));
    assert_eq!(engine.windows_in_active_workspace(space), vec![other, a, c]);
}

#[test]
fn removed_window_leaves_layout_and_assignment() {
    let mut engine = LayoutEngine::new(&VirtualWorkspaceSettings::default());
    let space = SpaceId::new(1);
    engine.register_space(space);
    let a = WindowId::new(1, 1);
    let b = WindowId::new(1, 2);
    engine.handle_event(LayoutEvent::WindowsOnScreenUpdated(space, 1, vec![a, b]));
    engine.handle_event(LayoutEvent::WindowRemoved(a));
    assert_eq!(engine.windows_in_active_workspace(space), vec![b]);
    assert_eq!(engine.workspace_for_window(a), None);
}

#[test]
fn moved_window_appears_when_its_workspace_is_shown() {
    let mut engine = LayoutEngine::new(&VirtualWorkspaceSettings::default());
    let space = SpaceId::new(1);
    engine.register_space(space);
    let a = WindowId::new(1, 1);
    let b = WindowId::new(1, 2);
    engine.handle_event(LayoutEvent::WindowsOnScreenUpdated(space, 1, vec![a, b]));
    assert!(engine.move_window_to_workspace(space, a, 2));
    assert_eq!(engine.windows_in_active_workspace(space), vec![b]);
    assert!(engine.switch_to_workspace(space, 2));
    assert_eq!(engine.windows_in_active_workspace(space), vec![a]);
    assert!(!engine.move_window_to_workspace(space, a, 9));
    assert!(!engine.move_window_to_workspace(SpaceId::new(3), a, 0));
    assert_eq!(engine.windows_in_active_workspace(space), vec![a]);
}

#[test]
fn destroyed_window_is_counted_not_removed_during_churn() {
    let mut reactor = reactor_with_screens(vec![Rect::new(0, 0, 1000, 1000)], vec![Some(SpaceId::new(1))]);
    let space = SpaceId::new(1);
    let w = WindowId::new(3, 1);
    reactor.layout_engine.handle_event(LayoutEvent::WindowsOnScreenUpdated(space, 3, vec![w]));

    reactor.display_topology_manager.begin_churn(1, DisplayReconfigFlags::REMOVE);
    reactor.handle_event(Event::WindowDestroyed(w));
    assert!(has_window_in_layout(&reactor, space, w));
    assert_eq!(reactor.display_topology_manager.quarantine_stats.destroyed_dropped, 1);

    reactor.display_topology_manager.end_churn_to_awaiting(1, DisplayReconfigFlags::REMOVE);
    reactor.handle_event(screens_event(vec![Rect::new(0, 0, 1000, 1000)], vec![Some(space)], "display"));
    assert!(matches!(reactor.display_topology_manager.state(), TopologyState::Stable));
    reactor.handle_event(Event::WindowDestroyed(w));
    assert!(!has_window_in_layout(&reactor, space, w));
    assert_eq!(reactor.display_topology_manager.quarantine_stats.destroyed_dropped, 1);
}

#[test]
fn quarantine_counts_each_kind_of_window_event() {
    let mut reactor = Reactor::new(LayoutEngine::new(&VirtualWorkspaceSettings::default()));
    let w = WindowId::new(1, 1);
    assert!(!reactor.maybe_quarantine_during_churn(&WindowEvent::WindowCreated(w)));
    assert_eq!(reactor.display_topology_manager.quarantine_stats.appeared_dropped, 0);

    reactor.display_topology_manager.begin_churn(5, DisplayReconfigFlags::SET_MODE);
    assert!(reactor.maybe_quarantine_during_churn(&WindowEvent::WindowCreated(w)));
    assert!(reactor.maybe_quarantine_during_churn(&WindowEvent::WindowCreated(w)));
    assert!(reactor.maybe_quarantine_during_churn(&WindowEvent::WindowDestroyed(w)));
    assert!(reactor.maybe_quarantine_during_churn(&WindowEvent::WindowsDiscovered(1)));
    assert!(reactor.maybe_quarantine_during_churn(&WindowEvent::WindowFrameChanged(w, Rect::new(0, 0, 1, 1))));
    let stats = reactor.display_topology_manager.quarantine_stats;
    assert_eq!(stats.appeared_dropped, 2);
    assert_eq!(stats.destroyed_dropped, 1);
    assert_eq!(stats.resync_dropped, 1);
}

#[test]
fn quarantine_counters_stop_at_their_maximum() {
    let mut reactor = Reactor::new(LayoutEngine::new(&VirtualWorkspaceSettings::default()));
    reactor.display_topology_manager.quarantine_stats.resync_dropped = u64::MAX;
    reactor.display_topology_manager.quarantine_resync();
    assert_eq!(reactor.display_topology_manager.quarantine_stats.resync_dropped, u64::MAX);
}

#[test]
fn churn_waits_for_every_display() {
    let mut reactor = Reactor::new(LayoutEngine::new(&VirtualWorkspaceSettings::default()));
    let topology = &mut reactor.display_topology_manager;
    topology.begin_churn(1, DisplayReconfigFlags::ADD);
    topology.begin_churn(2, DisplayReconfigFlags::REMOVE);
    topology.begin_churn(1, DisplayReconfigFlags::MOVED);
    topology.end_churn_to_awaiting(1, DisplayReconfigFlags::ADD);
    match topology.state() {
        TopologyState::Churning { pending, flags } => {
            assert_eq!(pending, &vec![2]);
            assert_eq!(*flags, DisplayReconfigFlags::ADD | DisplayReconfigFlags::REMOVE | DisplayReconfigFlags::MOVED);
        }
        other => panic!("expected churning, got {other:?}"),
    }
    assert!(topology.is_quarantining());
    // A snapshot while a display still churns commits nothing.
    assert!(!topology.commit_snapshot());
    topology.end_churn_to_awaiting(2, DisplayReconfigFlags::REMOVE);
    assert!(matches!(topology.state(), TopologyState::AwaitingCommitSnapshot { .. }));
    assert!(topology.is_quarantining());
    assert!(topology.commit_snapshot());
    assert!(!topology.is_quarantining());
    // Ending a reconfiguration that never began changes nothing.
    topology.end_churn_to_awaiting(4, DisplayReconfigFlags::ADD);
    assert!(matches!(topology.state(), TopologyState::Stable));
}

#[test]
fn menu_state_ignores_unrelated_applications() {
    let mut reactor = Reactor::new(LayoutEngine::new(&VirtualWorkspaceSettings::default()));
    assert!(reactor.handle_event(Event::ApplicationDeactivated(1)).event_tap.is_none());
    reactor.handle_event(Event::MenuOpened(1));
    assert!(reactor.handle_event(Event::ApplicationDeactivated(2)).event_tap.is_none());
    assert!(reactor.handle_event(Event::MenuClosed(2)).event_tap.is_none());
    assert!(reactor.handle_event(Event::ApplicationGloballyActivated(1)).event_tap.is_none());
    assert_eq!(reactor.menu_manager.menu_state, MenuState::Open(1));
    let r = reactor.handle_event(Event::MenuClosed(1));
    assert_eq!(r.event_tap, Some(EventTapRequest::SetFocusFollowsMouseEnabled(true)));
    assert_eq!(reactor.menu_manager.menu_state, MenuState::Closed);
    assert!(reactor.handle_event(Event::ApplicationGloballyActivated(3)).event_tap.is_none());
}

#[test]
fn space_snapshot_of_another_length_is_ignored() {
    let mut reactor = reactor_with_screens(
        vec![Rect::new(0, 0, 1000, 1000), Rect::new(1000, 0, 1000, 1000)],
        vec![Some(SpaceId::new(1)), Some(SpaceId::new(2))],
    );
    reactor.handle_event(Event::SpaceChanged(vec![Some(SpaceId::new(3))]));
    assert_eq!(reactor.raw_spaces_for_current_screens(), vec![Some(SpaceId::new(1)), Some(SpaceId::new(2))]);
    reactor.handle_event(Event::SpaceChanged(vec![Some(SpaceId::new(3)), None]));
    assert_eq!(reactor.raw_spaces_for_current_screens(), vec![Some(SpaceId::new(3)), None]);
    assert!(reactor.is_space_active(SpaceId::new(3)));
    assert!(!reactor.is_space_active(SpaceId::new(2)));
    // The new space was registered with the layout engine.
    assert!(reactor.layout_engine.active_workspace(SpaceId::new(3)).is_some());
}

#[test]
fn new_display_set_arms_topology_relayout() {
    let mut reactor = reactor_with_screens(vec![Rect::new(0, 0, 1000, 1000)], vec![Some(SpaceId::new(1))]);
    assert!(!reactor.space_manager.topology_relayout_pending());
    reactor.handle_event(screens_event(
        vec![Rect::new(0, 0, 1000, 1000), Rect::new(1000, 0, 1000, 1000)],
        vec![Some(SpaceId::new(1)), Some(SpaceId::new(2))],
        "display",
    ));
    assert!(reactor.space_manager.topology_relayout_pending());
}

#[test]
fn display_history_follows_user_spaces() {
    let mut reactor = reactor_with_screens(vec![Rect::new(0, 0, 1000, 1000)], vec![Some(SpaceId::new(1))]);
    let uuid = "display-0".to_string();
    assert_eq!(reactor.space_manager.last_space_for_display_uuid(&uuid), Some(SpaceId::new(1)));
    reactor.handle_event(Event::SpaceChanged(vec![Some(SpaceId::new(5))]));
    assert_eq!(reactor.space_manager.last_space_for_display_uuid(&uuid), Some(SpaceId::new(5)));
    reactor.handle_event(Event::SpaceChanged(vec![None]));
    assert_eq!(reactor.space_manager.last_space_for_display_uuid(&uuid), Some(SpaceId::new(5)));
    assert_eq!(reactor.space_manager.last_space_for_display_uuid(&"display-9".to_string()), None);
}

#[test]
fn leaving_fullscreen_lists_each_application_once() {
    let user = SpaceId::new(1);
    let fullscreen = SpaceId::new(0x400000001);
    let mut reactor = reactor_with_screens(vec![Rect::new(0, 0, 1000, 1000)], vec![Some(user)]);
    let track = |pid: i32, idx: u32| FullscreenWindowTrack {
        pid,
        window_id: Some(WindowId::new(pid, idx)),
        last_known_user_space: Some(user),
        last_seen_fullscreen_space: fullscreen,
    };
    reactor.space_manager.track_fullscreen_space(
        fullscreen.get(),
        FullscreenSpaceTrack { windows: vec![track(4, 1), track(4, 2), track(6, 1)] },
    );
    let entering = reactor.handle_event(screens_event(vec![Rect::new(0, 0, 1000, 1000)], vec![Some(fullscreen)], "display"));
    assert!(entering.get_visible_windows.is_empty());
    assert_eq!(reactor.raw_spaces_for_current_screens(), vec![None]);
    assert!(reactor.space_manager.is_fullscreen_tracked(fullscreen.get()));

    let leaving = reactor.handle_event(screens_event(vec![Rect::new(0, 0, 1000, 1000)], vec![Some(user)], "display"));
    let mut pids = leaving.get_visible_windows.clone();
    pids.sort();
    assert_eq!(pids, vec![4, 6]);
    assert!(!reactor.space_manager.is_fullscreen_tracked(fullscreen.get()));
    assert_eq!(reactor.raw_spaces_for_current_screens(), vec![Some(user)]);
}

#[test]
fn index_selector_breaks_ties_top_to_bottom() {
    let top = Rect::new(0, -1000, 1000, 1000);
    let bottom = Rect::new(0, 0, 1000, 1000);
    let right = Rect::new(1000, 0, 1000, 1000);
    let reactor = reactor_with_screens(
        vec![right, bottom, top],
        vec![Some(SpaceId::new(1)), Some(SpaceId::new(2)), Some(SpaceId::new(3))],
    );
    let frames: Vec<Rect> = (0..3)
        .map(|i| reactor.screen_for_selector(&DisplaySelector::Index(i)).expect("index resolves").frame)
        .collect();
    assert_eq!(frames, vec![top, bottom, right]);
    assert!(reactor.screen_for_selector(&DisplaySelector::Index(3)).is_none());
    let by_uuid = reactor
        .screen_for_selector(&DisplaySelector::Uuid("display-1".to_string()))
        .expect("uuid resolves");
    assert_eq!(by_uuid.frame, bottom);
    assert_eq!(by_uuid.space, Some(SpaceId::new(2)));
    assert!(reactor.screen_for_selector(&DisplaySelector::Uuid("nope".to_string())).is_none());
}

#[test]
fn raise_groups_keep_order_and_offscreen_windows() {
    let reactor = reactor_with_screens(vec![Rect::new(0, 0, 1000, 1000)], vec![Some(SpaceId::new(1))]);
    let a1 = WindowId::new(1, 1);
    let b1 = WindowId::new(2, 1);
    let a2 = WindowId::new(1, 2);
    let a3 = WindowId::new(1, 3);
    let request = reactor.handle_layout_response(
        &vec![
            (a1, Rect::new(0, 0, 100, 100)),
            (b1, Rect::new(10, 10, 100, 100)),
            (a2, Rect::new(5000, 5000, 100, 100)),
            (a3, Rect::new(200, 200, 100, 100)),
        ],
        Some(b1),
    );
    assert_eq!(request.raise_windows, vec![vec![a1, a3], vec![b1], vec![a2]]);
    assert_eq!(request.focus_window, Some(b1));
    assert_eq!(request.app_handles, vec![1, 2]);
}

#[test]
fn window_centre_decides_the_display() {
    let screen = Rect::new(0, 0, 1000, 1000);
    assert!(screen.contains_center(&Rect::new(-40, 0, 100, 100)));
    assert!(!screen.contains_center(&Rect::new(-60, 0, 100, 100)));
    assert!(screen.contains_center(&Rect::new(949, 949, 100, 100)));
    assert!(!screen.contains_center(&Rect::new(950, 0, 100, 100)));
}

#[test]
fn stale_write_notifications_are_ignored() {
    let mut reactor = Reactor::new(LayoutEngine::new(&VirtualWorkspaceSettings::default()));
    let wsid = WindowServerId::new(9);
    let first = reactor.transaction_manager.generate_next_txid(wsid);
    assert_eq!(first.id, 1);
    reactor.transaction_manager.store_txid(wsid, first, Rect::new(0, 0, 500, 500));
    let second = reactor.transaction_manager.generate_next_txid(wsid);
    assert_eq!(second.id, 2);
    reactor.transaction_manager.store_txid(wsid, second, Rect::new(0, 0, 250, 500));

    assert_eq!(
        reactor.transaction_manager.frame_changed(wsid, Rect::new(0, 0, 500, 500), Some(first), None),
        FrameChange::Stale
    );
    assert!(!reactor.handle_window_frame_changed(wsid, Rect::new(0, 0, 500, 500), Some(first), Some(MouseState::Up)));
    assert_eq!(reactor.transaction_manager.get_target_frame(wsid), Some(Rect::new(0, 0, 250, 500)));
}

#[test]
fn outside_moves_with_the_button_down_start_a_drag_until_release() {
    let mut reactor = Reactor::new(LayoutEngine::new(&VirtualWorkspaceSettings::default()));
    let wsid = WindowServerId::new(2);
    assert!(reactor.handle_window_frame_changed(wsid, Rect::new(5, 5, 100, 100), None, Some(MouseState::Up)));
    assert!(!reactor.is_in_drag());
    assert!(reactor.handle_window_frame_changed(wsid, Rect::new(6, 5, 100, 100), None, Some(MouseState::Down)));
    assert!(reactor.is_in_drag());
    reactor.handle_event(Event::MouseUp);
    assert!(!reactor.is_in_drag());
    // A write number never sent counts as a move from outside.
    let unknown = TransactionId { id: 40 };
    assert_eq!(
        reactor.transaction_manager.frame_changed(wsid, Rect::new(0, 0, 1, 1), Some(unknown), None),
        FrameChange::External { dragging: false }
    );
}

#[test]
fn frame_changes_are_held_back_during_churn() {
    let mut reactor = Reactor::new(LayoutEngine::new(&VirtualWorkspaceSettings::default()));
    reactor.display_topology_manager.begin_churn(1, DisplayReconfigFlags::ADD);
    let wsid = WindowServerId::new(3);
    assert!(!reactor.handle_window_frame_changed(wsid, Rect::new(0, 0, 10, 10), None, Some(MouseState::Down)));
    assert!(!reactor.is_in_drag());
}

#[test]
fn report_on_one_space_leaves_other_spaces_alone() {
    let s1 = SpaceId::new(1);
    let s2 = SpaceId::new(2);
    let mut reactor = reactor_with_screens(
        vec![Rect::new(0, 0, 1000, 1000), Rect::new(1000, 0, 1000, 1000)],
        vec![Some(s1), Some(s2)],
    );
    let a = WindowId::new(1, 1);
    let b = WindowId::new(1, 2);
    reactor.layout_engine.handle_event(LayoutEvent::WindowsOnScreenUpdated(s1, 1, vec![a]));
    reactor.layout_engine.handle_event(LayoutEvent::WindowsOnScreenUpdated(s2, 1, vec![b]));
    reactor.layout_engine.handle_event(LayoutEvent::WindowsOnScreenUpdated(s2, 1, vec![]));
    reactor.layout_engine.handle_event(LayoutEvent::WindowsOnScreenUpdated(s2, 7, vec![WindowId::new(7, 1)]));
    assert_eq!(reactor.layout_engine.windows_in_active_workspace(s1), vec![a]);
    assert_eq!(reactor.layout_engine.windows_in_active_workspace(s2), vec![b, WindowId::new(7, 1)]);
}

#[test]
fn empty_report_keeps_window_reassigned_within_the_space() {
    let space = SpaceId::new(1);
    let mut reactor = reactor_with_screens(vec![Rect::new(0, 0, 1000, 1000)], vec![Some(space)]);
    let w = WindowId::new(1, 1);
    reactor.layout_engine.handle_event(LayoutEvent::WindowsOnScreenUpdated(space, 1, vec![w]));
    let other = rift::ids::WorkspaceId { space, index: 2 };
    assert!(reactor.layout_engine.assign_window_to_workspace(space, w, other));
    reactor.layout_engine.handle_event(LayoutEvent::WindowsOnScreenUpdated(space, 1, vec![]));
    assert!(has_window_in_layout(&reactor, space, w));
    // A report that lists the window drops it: it belongs to another workspace.
    reactor.layout_engine.handle_event(LayoutEvent::WindowsOnScreenUpdated(space, 1, vec![w]));
    assert!(!has_window_in_layout(&reactor, space, w));
}

#[test]
fn report_on_destination_takes_window_out_of_source() {
    let s1 = SpaceId::new(1);
    let s2 = SpaceId::new(2);
    let mut reactor = reactor_with_screens(
        vec![Rect::new(0, 0, 1000, 1000), Rect::new(1000, 0, 1000, 1000)],
        vec![Some(s1), Some(s2)],
    );
    let w = WindowId::new(1, 1);
    reactor.layout_engine.handle_event(LayoutEvent::WindowsOnScreenUpdated(s1, 1, vec![w]));
    assert!(has_window_in_layout(&reactor, s1, w));
    reactor.layout_engine.handle_event(LayoutEvent::WindowsOnScreenUpdated(s2, 1, vec![w]));
    assert!(!has_window_in_layout(&reactor, s1, w));
    assert!(has_window_in_layout(&reactor, s2, w));
}

#[test]
fn window_stays_on_one_space_across_space_and_display_changes() {
    let s1 = SpaceId::new(1);
    let s2 = SpaceId::new(2);
    let mut reactor = reactor_with_screens(vec![Rect::new(0, 0, 1000, 1000)], vec![Some(s1)]);
    let w = WindowId::new(1, 1);
    let frame = Rect::new(100, 100, 200, 200);
    reactor.handle_event(Event::WindowsDiscovered { pid: 1, visible: vec![(w, frame)], minimized: vec![] });
    assert!(has_window_in_layout(&reactor, s1, w));

    reactor.handle_event(Event::SpaceChanged(vec![Some(s2)]));
    reactor.handle_event(Event::WindowsDiscovered { pid: 1, visible: vec![(w, frame)], minimized: vec![] });
    assert!(has_window_in_layout(&reactor, s2, w));
    assert!(!has_window_in_layout(&reactor, s1, w));

    let resp = reactor.handle_event(screens_event(
        vec![Rect::new(0, 0, 1000, 1000), Rect::new(1000, 0, 1000, 1000)],
        vec![Some(s2), Some(s1)],
        "display",
    ));
    assert!(resp.get_visible_windows.is_empty());
    assert!(!(has_window_in_layout(&reactor, s1, w) && has_window_in_layout(&reactor, s2, w)));
    assert!(has_window_in_layout(&reactor, s2, w));
}

#[test]
fn discovery_is_held_back_during_churn() {
    let s1 = SpaceId::new(1);
    let mut reactor = reactor_with_screens(vec![Rect::new(0, 0, 1000, 1000)], vec![Some(s1)]);
    reactor.display_topology_manager.begin_churn(1, DisplayReconfigFlags::ADD);
    let w = WindowId::new(1, 1);
    reactor.handle_event(Event::WindowsDiscovered { pid: 1, visible: vec![(w, Rect::new(0, 0, 100, 100))], minimized: vec![] });
    assert!(!has_window_in_layout(&reactor, s1, w));
    assert_eq!(reactor.display_topology_manager.quarantine_stats.resync_dropped, 1);
}

#[test]
fn windows_of_two_applications_stay_on_one_display_through_events() {
    let s1 = SpaceId::new(1);
    let s2 = SpaceId::new(2);
    let mut reactor = reactor_with_screens(
        vec![Rect::new(0, 0, 1000, 1000), Rect::new(1000, 0, 1000, 1000)],
        vec![Some(s1), Some(s2)],
    );
    let a = WindowId::new(1, 1);
    let b = WindowId::new(2, 1);
    let on_one = |r: &Reactor, w: WindowId| !(has_window_in_layout(r, s1, w) && has_window_in_layout(r, s2, w));

    reactor.handle_event(Event::WindowsDiscovered { pid: 1, visible: vec![(a, Rect::new(100, 0, 100, 100))], minimized: vec![] });
    reactor.handle_event(Event::WindowsDiscovered { pid: 2, visible: vec![(b, Rect::new(1100, 0, 100, 100))], minimized: vec![] });
    assert!(has_window_in_layout(&reactor, s1, a));
    assert!(has_window_in_layout(&reactor, s2, b));

    reactor.handle_event(Event::WindowsDiscovered { pid: 1, visible: vec![(a, Rect::new(1200, 0, 100, 100))], minimized: vec![] });
    assert!(has_window_in_layout(&reactor, s2, a));
    assert!(on_one(&reactor, a));
    assert!(on_one(&reactor, b));

    reactor.handle_event(Event::MenuOpened(1));
    reactor.handle_event(Event::MouseUp);
    reactor.handle_event(Event::WindowDestroyed(b));
    reactor.handle_event(Event::WindowsDiscovered { pid: 2, visible: vec![(b, Rect::new(100, 0, 100, 100))], minimized: vec![] });
    assert!(has_window_in_layout(&reactor, s1, b));
    assert!(!has_window_in_layout(&reactor, s2, b));
    assert!(on_one(&reactor, a));
    assert!(on_one(&reactor, b));
}

#[test]
fn minimized_window_returns_to_its_workspace_when_restored() {
    let s1 = SpaceId::new(1);
    let mut reactor = reactor_with_screens(vec![Rect::new(0, 0, 1000, 1000)], vec![Some(s1)]);
    let a = WindowId::new(1, 1);
    let b = WindowId::new(1, 2);
    let frame = Rect::new(0, 0, 500, 500);
    reactor.handle_event(Event::WindowsDiscovered { pid: 1, visible: vec![(a, frame), (b, frame)], minimized: vec![] });
    assert_eq!(reactor.layout_engine.windows_in_active_workspace(s1), vec![a, b]);

    reactor.handle_event(Event::WindowsDiscovered { pid: 1, visible: vec![(b, frame)], minimized: vec![a] });
    assert_eq!(reactor.layout_engine.windows_in_active_workspace(s1), vec![b]);
    assert_eq!(reactor.layout_engine.workspace_for_window(a), reactor.layout_engine.active_workspace(s1));
    assert!(reactor.is_window_minimized(a));
    assert!(!reactor.is_window_minimized(b));

    reactor.handle_event(Event::WindowsDiscovered { pid: 1, visible: vec![(b, frame), (a, frame)], minimized: vec![] });
    assert_eq!(reactor.layout_engine.windows_in_active_workspace(s1), vec![b, a]);
    assert!(!reactor.is_window_minimized(a));
}

#[test]
fn destroyed_window_forgets_its_minimized_mark() {
    let s1 = SpaceId::new(1);
    let mut reactor = reactor_with_screens(vec![Rect::new(0, 0, 1000, 1000)], vec![Some(s1)]);
    let a = WindowId::new(1, 1);
    reactor.handle_event(Event::WindowsDiscovered { pid: 1, visible: vec![], minimized: vec![a] });
    assert!(reactor.is_window_minimized(a));
    reactor.handle_event(Event::WindowDestroyed(a));
    assert!(!reactor.is_window_minimized(a));
}

#[test]
fn own_write_notifications_do_not_start_a_drag() {
    let mut reactor = reactor_with_screens(vec![Rect::new(0, 0, 1000, 1000)], vec![Some(SpaceId::new(1))]);
    let wsid = WindowServerId::new(1);
    let txid = reactor.transaction_manager.generate_next_txid(wsid);
    let target = Rect::new(0, 0, 500, 1000);
    reactor.transaction_manager.store_txid(wsid, txid, target);

    let intermediate = Rect::new(25, 0, 500, 1000);
    let changed = reactor.handle_window_frame_changed(wsid, intermediate, Some(txid), Some(MouseState::Down));
    assert!(!changed);
    assert!(!reactor.is_in_drag());
    assert_eq!(reactor.transaction_manager.get_target_frame(wsid), Some(target));

    // Reaching the target completes the write.
    assert!(!reactor.handle_window_frame_changed(wsid, target, Some(txid), Some(MouseState::Up)));
    assert_eq!(reactor.transaction_manager.get_target_frame(wsid), None);
}

#[test]
fn discovered_window_follows_the_display_it_moved_to() {
    let s1 = SpaceId::new(1);
    let s2 = SpaceId::new(2);
    let mut reactor = reactor_with_screens(
        vec![Rect::new(0, 0, 1000, 1000), Rect::new(1000, 0, 1000, 1000)],
        vec![Some(s1), Some(s2)],
    );
    let w = WindowId::new(1, 1);
    reactor.emit_layout_events(1, &vec![(w, Rect::new(100, 100, 400, 400))]);
    assert!(has_window_in_layout(&reactor, s1, w));
    assert!(!has_window_in_layout(&reactor, s2, w));

    reactor.emit_layout_events(1, &vec![(w, Rect::new(1100, 100, 50, 50))]);
    assert!(!has_window_in_layout(&reactor, s1, w), "space1 must not keep the window after it moved");
    assert!(has_window_in_layout(&reactor, s2, w), "space2 must lay the window out");
    assert_eq!(reactor.layout_engine.workspace_for_window(w).map(|ws| ws.space), Some(s2));
}

#[test]
fn discovered_windows_stay_on_their_initial_screens() {
    let s1 = SpaceId::new(1);
    let s2 = SpaceId::new(2);
    let mut reactor = reactor_with_screens(
        vec![Rect::new(0, 0, 1000, 1000), Rect::new(1000, 0, 1000, 1000)],
        vec![Some(s1), Some(s2)],
    );
    let a = WindowId::new(1, 1);
    let b = WindowId::new(1, 2);
    let lost = WindowId::new(1, 3);
    reactor.emit_layout_events(
        1,
        &vec![
            (a, Rect::new(0, 0, 100, 100)),
            (b, Rect::new(1100, 100, 100, 100)),
            (lost, Rect::new(5000, 5000, 100, 100)),
        ],
    );
    assert_eq!(reactor.layout_engine.windows_in_active_workspace(s1), vec![a]);
    assert_eq!(reactor.layout_engine.windows_in_active_workspace(s2), vec![b]);
    assert_eq!(reactor.layout_engine.workspace_for_window(lost), None);
}
