use wl_distore::complete::{HeadIdentity, Mode, SCALE_ONE};
use wl_distore::daemon::{AppData, BarrierAction, BarrierError, ConfigurationResult, DoneAction};
use wl_distore::layout::{
    HeadRequest, LayoutData, LayoutMatchScore, ModeRequest, SavedConfiguration, Transform,
};
use wl_distore::partial::{HeadEvent, ModeEvent};

fn identity(name: &str, make: &str, model: &str, serial: &str) -> HeadIdentity {
    HeadIdentity {
        name: name.to_string(),
        description: format!("{make} {model} ({name})"),
        make: Some(make.to_string()),
        model: Some(model.to_string()),
        serial_number: Some(serial.to_string()),
    }
}

fn m1() -> HeadIdentity {
    identity("DP-1", "Acme", "X1", "111")
}

fn m2() -> HeadIdentity {
    identity("HDMI-A-1", "Bolt", "Y2", "222")
}

/// Announces a head with one mode, enabled at `position` with that mode current.
fn connect(app: &mut AppData, id: u32, mode_id: u32, who: &HeadIdentity, size: (u32, u32), position: (u32, u32)) {
    app.head_added(id);
    app.head_event(id, HeadEvent::Name(who.name.clone()));
    app.head_event(id, HeadEvent::Description(who.description.clone()));
    app.head_event(id, HeadEvent::Make(who.make.clone().unwrap()));
    app.head_event(id, HeadEvent::Model(who.model.clone().unwrap()));
    app.head_event(id, HeadEvent::SerialNumber(who.serial_number.clone().unwrap()));
    app.head_event(id, HeadEvent::Mode(mode_id));
    app.mode_event(mode_id, ModeEvent::Size(size.0, size.1)).unwrap();
    app.mode_event(mode_id, ModeEvent::Refresh(60000)).unwrap();
    app.head_event(id, HeadEvent::Enabled(true));
    app.head_event(id, HeadEvent::CurrentMode(mode_id));
    app.head_event(id, HeadEvent::Position(position.0, position.1));
    app.head_event(id, HeadEvent::Transform(Transform::Normal));
    app.head_event(id, HeadEvent::Scale(SCALE_ONE));
}

fn config(size: (u32, u32), position: (u32, u32)) -> SavedConfiguration {
    SavedConfiguration {
        mode: Some(Mode { size, refresh: Some(60000) }),
        position,
        transform: Transform::Normal,
        scale: SCALE_ONE,
        adaptive_sync: None,
    }
}

fn two_heads_saved() -> AppData {
    let mut app = AppData::new(false, LayoutData::new());
    connect(&mut app, 1, 10, &m1(), (1920, 1080), (0, 0));
    connect(&mut app, 2, 20, &m2(), (2560, 1440), (1920, 0));
    let outcome = app.done().unwrap();
    assert!(matches!(outcome.action, BarrierAction::Saved));
    app
}

#[test]
fn scenario_first_barrier_saves_new_layout() {
    let app = two_heads_saved();
    assert_eq!(app.layout_data.layouts.len(), 1);
    assert_eq!(
        app.layout_data.layouts[0],
        vec![
            (m1(), Some(config((1920, 1080), (0, 0)))),
            (m2(), Some(config((2560, 1440), (1920, 0)))),
        ]
    );
    assert_eq!(app.done_action, DoneAction::Update);
}

#[test]
fn scenario_changed_configuration_overwrites_in_place() {
    let mut app = two_heads_saved();
    app.head_event(2, HeadEvent::Position(0, 1080));
    app.head_event(2, HeadEvent::CurrentMode(20));
    let outcome = app.done().unwrap();
    assert!(matches!(outcome.action, BarrierAction::Updated(0)));
    assert_eq!(app.layout_data.layouts.len(), 1);
    assert_eq!(
        app.layout_data.layouts[0],
        vec![
            (m1(), Some(config((1920, 1080), (0, 0)))),
            (m2(), Some(config((2560, 1440), (0, 1080)))),
        ]
    );
}

#[test]
fn scenario_unplugged_head_saves_single_head_layout() {
    let mut app = two_heads_saved();
    app.head_finished(2);
    assert_eq!(app.done_action, DoneAction::Apply);
    let outcome = app.done().unwrap();
    assert!(matches!(outcome.action, BarrierAction::Saved));
    assert_eq!(app.layout_data.layouts.len(), 2);
    assert_eq!(app.layout_data.layouts[1], vec![(m1(), Some(config((1920, 1080), (0, 0))))]);
    assert_eq!(app.done_action, DoneAction::Update);
}

#[test]
fn scenario_renamed_head_is_matched_by_fingerprint_and_applied() {
    let stored = identity("DP-1", "Acme", "X1", "123");
    let mut store = LayoutData::new();
    store.layouts.push(vec![(stored.clone(), Some(config((1920, 1080), (100, 0))))]);
    let mut app = AppData::new(false, store);
    let live = identity("DP-2", "Acme", "X1", "123");
    connect(&mut app, 7, 70, &live, (1920, 1080), (0, 0));

    let found = app.layout_data.find_layout_match(&vec![live.clone()]).unwrap();
    assert_eq!(found, (0, vec![(stored.clone(), live.clone())]));
    let score = LayoutMatchScore::score(&vec![stored.clone()], &vec![live.clone()]).unwrap();
    assert_eq!(score.0, LayoutMatchScore::SameHeads);

    let outcome = app.done().unwrap();
    match outcome.action {
        BarrierAction::Apply(requests) => assert_eq!(
            requests,
            vec![HeadRequest::Enable {
                head: 7,
                mode: Some(ModeRequest::Existing(70)),
                position: (100, 0),
                transform: Transform::Normal,
                scale: SCALE_ONE,
                adaptive_sync: None,
            }]
        ),
        other => panic!("expected a transaction, got {other:?}"),
    }
    assert_eq!(app.done_action, DoneAction::ApplyResult);
}

#[test]
fn scenario_cancelled_transaction_is_resubmitted() {
    let stored = identity("DP-1", "Acme", "X1", "123");
    let mut store = LayoutData::new();
    store.layouts.push(vec![(stored, Some(config((1280, 720), (0, 0))))]);
    let mut app = AppData::new(false, store);
    connect(&mut app, 7, 70, &identity("DP-2", "Acme", "X1", "123"), (1920, 1080), (0, 0));
    let first = match app.done().unwrap().action {
        BarrierAction::Apply(requests) => requests,
        other => panic!("expected a transaction, got {other:?}"),
    };
    assert_eq!(
        first,
        vec![HeadRequest::Enable {
            head: 7,
            mode: Some(ModeRequest::Custom(1280, 720, 60000)),
            position: (0, 0),
            transform: Transform::Normal,
            scale: SCALE_ONE,
            adaptive_sync: None,
        }]
    );
    app.configuration_result(ConfigurationResult::Cancelled);
    assert_eq!(app.done_action, DoneAction::Apply);
    let second = match app.done().unwrap().action {
        BarrierAction::Apply(requests) => requests,
        other => panic!("expected a transaction, got {other:?}"),
    };
    assert_eq!(first, second);
}

#[test]
fn barrier_during_pending_transaction_is_ignored() {
    let stored = identity("DP-1", "Acme", "X1", "123");
    let mut store = LayoutData::new();
    store.layouts.push(vec![(stored, Some(config((1920, 1080), (0, 0))))]);
    let mut app = AppData::new(false, store);
    connect(&mut app, 7, 70, &identity("DP-2", "Acme", "X1", "123"), (1920, 1080), (0, 0));
    assert!(matches!(app.done().unwrap().action, BarrierAction::Apply(_)));
    app.head_event(7, HeadEvent::Position(0, 0));
    app.head_event(7, HeadEvent::CurrentMode(70));
    assert!(matches!(app.done().unwrap().action, BarrierAction::Ignored));
    assert_eq!(app.done_action, DoneAction::ApplyResult);
    app.configuration_result(ConfigurationResult::Succeeded);
    assert_eq!(app.done_action, DoneAction::Update);
}

#[test]
fn failed_transaction_returns_to_apply() {
    let mut app = AppData::new(false, LayoutData::new());
    app.done_action = DoneAction::ApplyResult;
    app.configuration_result(ConfigurationResult::Failed);
    assert_eq!(app.done_action, DoneAction::Apply);
}

#[test]
fn no_match_after_apply_is_an_error() {
    let mut app = AppData::new(false, LayoutData::new());
    connect(&mut app, 1, 10, &m1(), (1920, 1080), (0, 0));
    app.done_action = DoneAction::ApplyResult;
    assert_eq!(app.done().unwrap_err(), BarrierError::NoMatchAfterApply);
}

#[test]
fn save_and_exit_updates_instead_of_applying() {
    let mut store = LayoutData::new();
    store.layouts.push(vec![(m1(), None)]);
    let mut app = AppData::new(true, store);
    connect(&mut app, 1, 10, &m1(), (1920, 1080), (0, 0));
    assert_eq!(app.done_action, DoneAction::Apply);
    let outcome = app.done().unwrap();
    assert!(matches!(outcome.action, BarrierAction::Updated(0)));
    assert_eq!(app.layout_data.layouts[0], vec![(m1(), Some(config((1920, 1080), (0, 0))))]);
}

#[test]
fn disabled_head_in_layout_is_disabled() {
    let mut store = LayoutData::new();
    store.layouts.push(vec![(m1(), Some(config((1920, 1080), (0, 0)))), (m2(), None)]);
    let mut app = AppData::new(false, store);
    connect(&mut app, 1, 10, &m1(), (1920, 1080), (0, 0));
    connect(&mut app, 2, 20, &m2(), (2560, 1440), (1920, 0));
    match app.done().unwrap().action {
        BarrierAction::Apply(requests) => {
            assert_eq!(requests.len(), 2);
            assert_eq!(
                requests[0],
                HeadRequest::Enable {
                    head: 1,
                    mode: Some(ModeRequest::Existing(10)),
                    position: (0, 0),
                    transform: Transform::Normal,
                    scale: SCALE_ONE,
                    adaptive_sync: None,
                }
            );
            assert_eq!(requests[1], HeadRequest::Disable(2));
        }
        other => panic!("expected a transaction, got {other:?}"),
    }
}

#[test]
fn unresolved_head_is_reported() {
    let mut store = LayoutData::new();
    store.layouts.push(vec![(m2(), None)]);
    let mut app = AppData::new(false, store);
    connect(&mut app, 1, 10, &m1(), (1920, 1080), (0, 0));
    app.done_action = DoneAction::Update;
    app.save_and_exit = true;
    let _ = app.done();
    assert_eq!(app.build_transaction(0, &Vec::new()).unwrap_err(), BarrierError::UnresolvedHead);
}
