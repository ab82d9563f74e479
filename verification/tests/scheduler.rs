use dock_workspace::codec::{PersistedNode, PersistedState};
use dock_workspace::dock::DockArea;
use dock_workspace::panel::{Axis, Panel};
use dock_workspace::scheduler::{Scheduler, SchedulerAction, SchedulerState, DEBOUNCE_WINDOW};
use dock_workspace::tree::{LayoutError, LayoutNode, LayoutStep};
use dock_workspace::workspace::Workspace;

fn panel(id: u64, name: &str) -> Panel {
    Panel { id, type_id: name.to_string(), title: name.to_string(), closable: true, zoom: None }
}

fn area() -> DockArea {
    DockArea::new(
        "main".to_string(),
        1,
        LayoutNode::Tabs { panels: vec![panel(1, "A"), panel(2, "B")], active: 0 },
    )
    .unwrap()
}

#[test]
fn the_debounce_window_is_ten() {
    assert_eq!(DEBOUNCE_WINDOW, 10);
}

#[test]
fn a_change_arms_the_timer() {
    let mut s = Scheduler::new();
    assert_eq!(s.state(), SchedulerState::Idle);
    assert_eq!(s.layout_changed(5), SchedulerAction::ArmTimer { deadline: 15 });
    assert_eq!(s.state(), SchedulerState::Armed { deadline: 15 });
}

#[test]
fn the_deadline_does_not_wrap() {
    let mut s = Scheduler::new();
    assert_eq!(s.layout_changed(u64::MAX - 3), SchedulerAction::ArmTimer { deadline: u64::MAX });
    assert_eq!(s.layout_changed(u64::MAX - 10), SchedulerAction::ArmTimer { deadline: u64::MAX });
    assert_eq!(
        s.layout_changed(u64::MAX - 11),
        SchedulerAction::ArmTimer { deadline: u64::MAX - 1 }
    );
}

#[test]
fn a_burst_of_changes_gives_one_write() {
    let a = area();
    let mut s = Scheduler::new();
    let mut writes = 0;
    for now in [0, 3, 6, 9, 12] {
        assert_eq!(s.layout_changed(now), SchedulerAction::ArmTimer { deadline: now + 10 });
        // Timers of earlier changes that were not cancelled in time.
        if let SchedulerAction::Write { .. } = s.timer_expired(now + 1, &a) {
            writes += 1;
        }
    }
    for now in [10, 13, 16, 19, 21] {
        assert_eq!(s.timer_expired(now, &a), SchedulerAction::Nothing);
    }
    assert_eq!(s.state(), SchedulerState::Armed { deadline: 22 });
    for now in [22, 23, 40] {
        if let SchedulerAction::Write { snapshot } = s.timer_expired(now, &a) {
            assert_eq!(snapshot, a.dump());
            writes += 1;
        }
    }
    assert_eq!(writes, 1);
    assert_eq!(s.state(), SchedulerState::Writing);
}

#[test]
fn an_unchanged_layout_is_not_written_again() {
    let a = area();
    let mut s = Scheduler::new();
    s.layout_changed(0);
    assert_eq!(s.timer_expired(10, &a), SchedulerAction::Write { snapshot: a.dump() });
    assert_eq!(s.write_finished(true), SchedulerAction::Nothing);
    assert_eq!(s.state(), SchedulerState::Idle);
    assert_eq!(s.last_persisted(), Some(&a.dump()));

    s.layout_changed(20);
    assert_eq!(s.timer_expired(30, &a), SchedulerAction::Nothing);
    assert_eq!(s.state(), SchedulerState::Idle);
}

#[test]
fn a_changed_layout_is_written_again() {
    let mut a = area();
    let mut s = Scheduler::new();
    s.layout_changed(0);
    s.timer_expired(10, &a);
    s.write_finished(true);

    a.close_panel(1).unwrap();
    s.layout_changed(20);
    assert_eq!(s.timer_expired(30, &a), SchedulerAction::Write { snapshot: a.dump() });
    assert_eq!(
        a.dump().root,
        PersistedNode::Tabs { panels: vec!["B".to_string()], active: 0 }
    );
}

#[test]
fn a_failed_write_is_reported_and_not_remembered() {
    let a = area();
    let mut s = Scheduler::new();
    s.layout_changed(0);
    s.timer_expired(10, &a);
    assert_eq!(s.write_finished(false), SchedulerAction::ReportFailure);
    assert_eq!(s.state(), SchedulerState::Idle);
    assert_eq!(s.last_persisted(), None);
    // No retry by itself: only the next change arms the timer again.
    assert_eq!(s.timer_expired(100, &a), SchedulerAction::Nothing);
    assert_eq!(s.layout_changed(100), SchedulerAction::ArmTimer { deadline: 110 });
    assert_eq!(s.timer_expired(110, &a), SchedulerAction::Write { snapshot: a.dump() });
}

#[test]
fn shutdown_before_the_deadline_still_writes() {
    let mut a = area();
    let mut s = Scheduler::new();
    a.split(&vec![], Axis::Vertical, panel(3, "C"), None).unwrap();
    s.layout_changed(0);
    let action = s.shutdown(&a);
    assert_eq!(action, SchedulerAction::Write { snapshot: a.dump() });
    assert_eq!(s.state(), SchedulerState::Flushed);
}

#[test]
fn shutdown_writes_even_what_was_written_last() {
    let a = area();
    let mut s = Scheduler::new();
    s.layout_changed(0);
    s.timer_expired(10, &a);
    s.write_finished(true);
    assert_eq!(s.shutdown(&a), SchedulerAction::Write { snapshot: a.dump() });
}

#[test]
fn shutdown_during_a_write_still_writes() {
    let a = area();
    let mut s = Scheduler::new();
    s.layout_changed(0);
    s.timer_expired(10, &a);
    assert_eq!(s.state(), SchedulerState::Writing);
    assert_eq!(s.shutdown(&a), SchedulerAction::Write { snapshot: a.dump() });
    assert_eq!(s.state(), SchedulerState::Flushed);
}

#[test]
fn after_the_flush_nothing_happens() {
    let a = area();
    let mut s = Scheduler::new();
    s.shutdown(&a);
    assert_eq!(s.layout_changed(1), SchedulerAction::Nothing);
    assert_eq!(s.timer_expired(100, &a), SchedulerAction::Nothing);
    assert_eq!(s.write_finished(true), SchedulerAction::Nothing);
    assert_eq!(s.shutdown(&a), SchedulerAction::Nothing);
    assert_eq!(s.state(), SchedulerState::Flushed);
    assert_eq!(s.last_persisted(), None);
}

#[test]
fn a_change_during_a_write_does_not_arm() {
    let a = area();
    let mut s = Scheduler::new();
    s.layout_changed(0);
    s.timer_expired(10, &a);
    assert_eq!(s.layout_changed(11), SchedulerAction::Nothing);
    assert_eq!(s.state(), SchedulerState::Writing);
}

#[test]
fn a_timer_without_a_change_does_nothing() {
    let a = area();
    let mut s = Scheduler::new();
    assert_eq!(s.timer_expired(100, &a), SchedulerAction::Nothing);
    assert_eq!(s.write_finished(true), SchedulerAction::Nothing);
    assert_eq!(s.state(), SchedulerState::Idle);
}

#[test]
fn the_workspace_starts_with_the_default_layout() {
    let w = Workspace::new();
    assert_eq!(w.dock_area().id(), "main-dock");
    assert_eq!(w.dock_area().version(), 1);
    let main = Panel {
        id: 0,
        type_id: "MainPanel".to_string(),
        title: "Main".to_string(),
        closable: false,
        zoom: None,
    };
    let second = Panel {
        id: 1,
        type_id: "SecondPanel".to_string(),
        title: "Second Tab".to_string(),
        closable: true,
        zoom: None,
    };
    assert_eq!(*w.dock_area().root(), LayoutNode::Tabs { panels: vec![main, second], active: 0 });
    assert_eq!(w.dock_area().root(), w.dock_area().default_root());
    assert_eq!(w.scheduler().state(), SchedulerState::Idle);
}

#[test]
fn the_workspace_saves_after_a_gesture() {
    let mut w = Workspace::new();
    let third = w.create_panel(&"SecondPanel".to_string()).unwrap();
    assert_eq!(third.id, 2);
    let steps = vec![LayoutStep::Split {
        target: vec![],
        axis: Axis::Vertical,
        panel: third,
        ratio: Some((2, 1)),
    }];
    match w.apply(&steps, 100) {
        Ok(SchedulerAction::ArmTimer { deadline }) => assert_eq!(deadline, 110),
        other => panic!("unexpected {:?}", other),
    }
    assert_eq!(w.timer_expired(105), SchedulerAction::Nothing);
    let written = match w.timer_expired(110) {
        SchedulerAction::Write { snapshot } => snapshot,
        other => panic!("unexpected {:?}", other),
    };
    assert_eq!(written, w.dock_area().dump());
    assert_eq!(w.write_finished(true), SchedulerAction::Nothing);
    assert_eq!(w.quit(), SchedulerAction::Write { snapshot: w.dock_area().dump() });
}

#[test]
fn the_workspace_refuses_to_close_the_main_panel() {
    let mut w = Workspace::new();
    let steps = vec![LayoutStep::ClosePanel { panel_id: 0 }];
    assert_eq!(w.apply(&steps, 1), Err(LayoutError::NotClosable));
    assert_eq!(w.scheduler().state(), SchedulerState::Idle);
}

#[test]
fn the_workspace_restores_what_it_dumped() {
    let mut w = Workspace::new();
    w.apply(&vec![LayoutStep::MovePanel { panel_id: 0, from: vec![], to: vec![] }], 0).unwrap();
    let state = w.dock_area().dump();

    let mut fresh = Workspace::new();
    assert_eq!(fresh.restore(&state), Ok(()));
    assert_eq!(fresh.dock_area().dump(), state);
    assert_eq!(
        state,
        PersistedState {
            id: "main-dock".to_string(),
            version: 1,
            root: PersistedNode::Tabs {
                panels: vec!["SecondPanel".to_string(), "MainPanel".to_string()],
                active: 1,
            },
        }
    );
}

#[test]
fn the_workspace_names_what_it_cannot_restore() {
    let mut w = Workspace::new();
    let state = PersistedState {
        id: "main-dock".to_string(),
        version: 1,
        root: PersistedNode::Tabs {
            panels: vec!["Terminal".to_string(), "SecondPanel".to_string()],
            active: 0,
        },
    };
    assert_eq!(w.unresolved(&state), vec!["Terminal"]);
    assert_eq!(w.restore(&state), Ok(()));
    assert_eq!(
        w.dock_area().dump().root,
        PersistedNode::Tabs { panels: vec!["SecondPanel".to_string()], active: 0 }
    );
}
