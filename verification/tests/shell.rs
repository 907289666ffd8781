use shapebit::overview::{boundary_target, navigation_target, overview_selection};
use shapebit::shell::{shell_request, ShellRequest, ShellRequestError, ShellRole};
use shapebit::state::{register_bar, register_overview, RegisterBarError, RegisterOverviewError};
use shapebit::presentation::ApplicationCatalog;
use shapebit::protocol_state::{ProtocolState, ShellEvent};
use shapebit::shell_supervisor::{ShellSchedule, RESTART_DELAY};

#[test]
fn announcements_record_objects_without_redrawing() {
    let mut state = ProtocolState::new();
    assert!(!state.apply(ShellEvent::Workspace { handle: 9 }));
    assert!(!state.apply(ShellEvent::Workspace { handle: 4 }));
    assert!(!state.apply(ShellEvent::Toplevel { handle: 20 }));

    let handles: Vec<u32> = state.workspaces().iter().map(|(handle, _)| *handle).collect();
    assert_eq!(handles, [4, 9]);
    assert_eq!(state.workspaces()[&4].position, u32::MAX);
    assert!(!state.workspaces()[&4].active);
    let toplevel = &state.toplevels()[&20];
    assert_eq!((toplevel.title.as_str(), toplevel.app_id.as_str()), ("", ""));
    assert_eq!(toplevel.workspace, None);
}

#[test]
fn changes_update_known_objects_and_ignore_unknown_ones() {
    let mut state = ProtocolState::new();
    state.apply(ShellEvent::Workspace { handle: 4 });
    state.apply(ShellEvent::Toplevel { handle: 20 });

    assert!(state.apply(ShellEvent::WorkspacePosition { handle: 4, position: 2 }));
    assert!(state.apply(ShellEvent::WorkspaceActive { handle: 4, active: 1 }));
    assert!(!state.apply(ShellEvent::WorkspaceActive { handle: 5, active: 1 }));
    assert_eq!(state.workspaces()[&4].position, 2);
    assert!(state.workspaces()[&4].active);

    assert!(state.apply(ShellEvent::ToplevelTitle { handle: 20, title: "Notes".into() }));
    assert!(state.apply(ShellEvent::ToplevelAppId {
        handle: 20,
        app_id: "org.example.Editor".into()
    }));
    assert!(state.apply(ShellEvent::ToplevelWorkspace { handle: 20, workspace: 4 }));
    assert!(state.apply(ShellEvent::ToplevelActive { handle: 20, active: 3 }));
    assert!(!state.apply(ShellEvent::ToplevelTitle { handle: 21, title: "Other".into() }));
    let toplevel = &state.toplevels()[&20];
    assert_eq!(toplevel.title, "Notes");
    assert_eq!(toplevel.app_id, "org.example.Editor");
    assert_eq!(toplevel.workspace, Some(4));
    assert!(toplevel.active);

    let presentations = state.presentations(&ApplicationCatalog::empty());
    assert_eq!(presentations.len(), 1);
    assert_eq!(presentations[0].windows.len(), 1);
    assert_eq!(presentations[0].applications[0].label, "Editor");

    assert!(state.apply(ShellEvent::ToplevelClosed { handle: 20 }));
    assert!(state.toplevels().is_empty());
    assert!(state.apply(ShellEvent::ToplevelClosed { handle: 20 }));

    assert!(!state.apply(ShellEvent::Workspace { handle: 4 }));
    assert_eq!(state.workspaces().len(), 1);
    assert_eq!(state.workspaces()[&4].position, u32::MAX);
}

#[test]
fn the_shell_restarts_after_the_delay_once_everything_is_gone() {
    let mut schedule = ShellSchedule::default();
    assert!(!schedule.restart_is_due(0, false, false, true));
    schedule.exited(1_000);
    assert_eq!(schedule.restart_at, Some(1_000 + RESTART_DELAY));
    assert!(!schedule.restart_is_due(1_000 + RESTART_DELAY - 1, false, false, true));
    assert!(schedule.restart_is_due(1_000 + RESTART_DELAY, false, false, true));
    assert!(!schedule.restart_is_due(1_000 + RESTART_DELAY, true, false, true));
    assert!(!schedule.restart_is_due(1_000 + RESTART_DELAY, false, true, true));
    assert!(!schedule.restart_is_due(1_000 + RESTART_DELAY, false, false, false));
    let generation = schedule.next_generation();
    assert_eq!(generation, 1);
    schedule.started(generation);
    assert_eq!(schedule, ShellSchedule { restart_at: None, generation: 1 });
    schedule.start_failed(u64::MAX - 1);
    assert_eq!(schedule.restart_at, Some(u64::MAX));
}

#[test]
fn overview_navigation_stays_within_the_cards() {
    let handles = [3, 7, 5];
    assert_eq!(navigation_target(&handles, 7, -1), Some(3));
    assert_eq!(navigation_target(&handles, 3, -1), Some(3));
    assert_eq!(navigation_target(&handles, 7, 1), Some(5));
    assert_eq!(navigation_target(&handles, 5, 1), Some(5));
    assert_eq!(navigation_target(&handles, 8, 1), None);
    assert_eq!(boundary_target(&handles, true), Some(3));
    assert_eq!(boundary_target(&handles, false), Some(5));
    assert_eq!(boundary_target(&[], true), None);
}

use shapebit::presentation::{launch_order, query_matches};
use shapebit::shell::{ShellReadyError, ShellState};

#[test]
fn launchers_are_listed_by_lowercase_name_keeping_ties_in_order() {
    let names: Vec<String> =
        ["beta", "Alpha", "alpha", "Émile", "gamma", "Beta"].iter().map(|n| n.to_string()).collect();
    assert_eq!(launch_order(&names), [1, 2, 0, 5, 4, 3]);
    assert_eq!(launch_order(&[]), Vec::<usize>::new());
}

#[test]
fn searches_match_names_holding_the_query() {
    assert!(query_matches("text editor", ""));
    assert!(query_matches("text editor", "edit"));
    assert!(query_matches("text editor", "text editor"));
    assert!(!query_matches("text editor", "editors"));
    assert!(!query_matches("", "a"));
    assert!(query_matches("émile", "mil"));
}

#[test]
fn the_shell_becomes_ready_once_with_its_surfaces() {
    let mut shell = ShellState::default();
    assert!(shell.bind_manager());
    assert!(!shell.bind_manager());
    assert_eq!(shell.ready_request(false), Err(ShellReadyError::MissingRequiredSurface));
    assert_eq!(shell.ready_request(true), Ok(()));
    assert_eq!(shell.ready_request(true), Err(ShellReadyError::AlreadyReady));
    assert!(shell.mark_unavailable());
    assert!(!shell.mark_unavailable());
    assert!(shell.set_ready());
    assert!(!shell.set_ready());
    assert!(!shell.unbind_manager(false));
    assert_eq!(shell, ShellState { bound: true, ready: true });
    assert!(shell.unbind_manager(true));
    assert_eq!(shell, ShellState { bound: false, ready: false });
}

#[test]
fn overview_cards_are_ordered_by_position_and_the_first_active_card_is_selected() {
    let cards = [(7, 2, false), (3, 0, true), (5, 0, false)];
    let (handles, active, selected) = overview_selection(&cards, None);
    assert_eq!(handles, vec![3, 5, 7]);
    assert_eq!(active, Some(3));
    assert_eq!(selected, Some(3));
}

#[test]
fn overview_keeps_a_selection_whose_card_remains() {
    let cards = [(7, 2, false), (3, 0, true), (5, 0, false)];
    assert_eq!(overview_selection(&cards, Some(7)).2, Some(7));
    assert_eq!(overview_selection(&cards, Some(99)).2, Some(3));
}

#[test]
fn overview_without_an_active_card_selects_the_first_card() {
    let cards = [(7, 1, false), (3, 0, false)];
    let (handles, active, selected) = overview_selection(&cards, Some(99));
    assert_eq!(handles, vec![3, 7]);
    assert_eq!(active, None);
    assert_eq!(selected, Some(3));
}

#[test]
fn overview_keeps_the_given_order_of_cards_at_one_position() {
    let cards = [(2, 1, false), (1, 1, true), (4, 1, true), (9, 0, false)];
    let (handles, active, selected) = overview_selection(&cards, None);
    assert_eq!(handles, vec![9, 2, 1, 4]);
    assert_eq!(active, Some(1));
    assert_eq!(selected, Some(1));
}

#[test]
fn overview_without_cards_selects_nothing() {
    assert_eq!(overview_selection(&[], Some(4)), (vec![], None, None));
}

#[test]
fn register_bar_refuses_a_second_bar_before_an_unknown_output() {
    assert_eq!(register_bar(true, false), Err(RegisterBarError::AlreadyHasBar));
    assert_eq!(register_bar(false, false), Err(RegisterBarError::InvalidOutput));
    assert_eq!(register_bar(false, true), Ok(()));
}

#[test]
fn register_overview_refuses_a_second_overview_before_an_unknown_output() {
    assert_eq!(
        register_overview(true, false),
        Err(RegisterOverviewError::AlreadyHasOverview)
    );
    assert_eq!(register_overview(false, false), Err(RegisterOverviewError::InvalidOutput));
    assert_eq!(register_overview(false, true), Ok(()));
}

#[test]
fn shell_requests_from_other_clients_are_refused_without_change() {
    let mut state = ShellState { bound: true, ready: false };
    for request in [
        ShellRequest::CreateBar,
        ShellRequest::CreateOverview,
        ShellRequest::Ready,
        ShellRequest::Destroy,
    ] {
        assert_eq!(
            shell_request(&mut state, false, request, true, true, true),
            Err(ShellRequestError::InvalidSurface)
        );
        assert_eq!(state, ShellState { bound: true, ready: false });
    }
}

#[test]
fn shell_create_requests_check_the_role_then_the_output() {
    let mut state = ShellState { bound: true, ready: false };
    assert_eq!(
        shell_request(&mut state, true, ShellRequest::CreateBar, true, false, false),
        Err(ShellRequestError::AlreadyHasBar)
    );
    assert_eq!(
        shell_request(&mut state, true, ShellRequest::CreateBar, false, false, false),
        Err(ShellRequestError::InvalidOutput)
    );
    assert_eq!(
        shell_request(&mut state, true, ShellRequest::CreateBar, false, false, true),
        Ok(ShellRole::Bar)
    );
    assert_eq!(
        shell_request(&mut state, true, ShellRequest::CreateOverview, false, true, false),
        Err(ShellRequestError::AlreadyHasOverview)
    );
    assert_eq!(
        shell_request(&mut state, true, ShellRequest::CreateOverview, false, false, false),
        Err(ShellRequestError::InvalidOutput)
    );
    assert_eq!(
        shell_request(&mut state, true, ShellRequest::CreateOverview, true, false, true),
        Ok(ShellRole::Overview)
    );
    assert_eq!(state, ShellState { bound: true, ready: false });
}

#[test]
fn shell_ready_waits_for_both_roles_and_is_answered_once() {
    let mut state = ShellState { bound: true, ready: false };
    assert_eq!(
        shell_request(&mut state, true, ShellRequest::Ready, true, false, true),
        Err(ShellRequestError::MissingRequiredSurface)
    );
    assert!(!state.ready);
    assert_eq!(
        shell_request(&mut state, true, ShellRequest::Ready, true, true, true),
        Ok(ShellRole::Ready)
    );
    assert!(state.ready);
    assert_eq!(
        shell_request(&mut state, true, ShellRequest::Ready, true, true, true),
        Err(ShellRequestError::AlreadyReady)
    );
    assert_eq!(
        shell_request(&mut state, true, ShellRequest::Destroy, true, true, true),
        Ok(ShellRole::Unchanged)
    );
    assert_eq!(state, ShellState { bound: true, ready: true });
}
