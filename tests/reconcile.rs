use wl_distore::complete::{
    ApplyPartialHeadError, CreateHeadError, Head, HeadConfiguration, HeadIdentity, Mode,
    ModeState, SCALE_ONE,
};
use wl_distore::daemon::{AppData, BarrierError, DoneAction, ModeEventError};
use wl_distore::layout::{LayoutData, Transform, TransformConversionError};
use wl_distore::partial::{
    ConfigurationProperty, HeadEvent, ImmutableProperty, ModeEvent, PartialHead, PartialMode,
};

fn named(name: &str) -> PartialHead {
    let mut p = PartialHead::new();
    p.name = Some(name.to_string());
    p.description = Some(format!("{name} description"));
    p
}

fn enabled_partial(name: &str) -> PartialHead {
    let mut p = named(name);
    p.enabled = Some(true);
    p.current_mode = Some(5);
    p.position = Some((10, 20));
    p.transform = Some(Transform::_90);
    p.scale = Some(SCALE_ONE);
    p
}

fn modes() -> Vec<ModeState> {
    vec![ModeState { id: 5, mode: Mode { size: (800, 600), refresh: None } }]
}

fn committed(name: &str) -> Head {
    let mut p = enabled_partial(name);
    p.modes = vec![5];
    Head::create_from_partial(p, &modes()).unwrap()
}

#[test]
fn create_enabled_head() {
    let head = committed("DP-1");
    assert_eq!(
        head.identity,
        HeadIdentity {
            name: "DP-1".to_string(),
            description: "DP-1 description".to_string(),
            make: None,
            model: None,
            serial_number: None,
        }
    );
    assert_eq!(head.mode_to_id, vec![(Mode { size: (800, 600), refresh: None }, 5)]);
    assert_eq!(
        head.configuration,
        Some(HeadConfiguration {
            current_mode: Some(5),
            position: (10, 20),
            transform: Transform::_90,
            scale: SCALE_ONE,
            adaptive_sync: None,
        })
    );
}

#[test]
fn create_disabled_head_has_no_configuration() {
    let mut p = named("DP-1");
    p.enabled = Some(false);
    let head = Head::create_from_partial(p, &modes()).unwrap();
    assert_eq!(head.configuration, None);
}

#[test]
fn create_head_errors() {
    let mut p = PartialHead::new();
    p.enabled = Some(false);
    assert_eq!(Head::create_from_partial(p, &modes()).unwrap_err(), CreateHeadError::MissingName);

    let mut p = PartialHead::new();
    p.name = Some("DP-1".to_string());
    assert_eq!(
        Head::create_from_partial(p, &modes()).unwrap_err(),
        CreateHeadError::MissingDescription
    );

    assert_eq!(
        Head::create_from_partial(named("DP-1"), &modes()).unwrap_err(),
        CreateHeadError::MissingEnabled
    );

    let mut p = enabled_partial("DP-1");
    p.transform = None;
    assert_eq!(
        Head::create_from_partial(p, &modes()).unwrap_err(),
        CreateHeadError::MissingConfigurationProperty(ConfigurationProperty::Transform)
    );

    let mut p = named("DP-1");
    p.enabled = Some(false);
    p.scale = Some(SCALE_ONE);
    assert_eq!(
        Head::create_from_partial(p, &modes()).unwrap_err(),
        CreateHeadError::ConfigurationPropertyOnDisabledHeadSet(ConfigurationProperty::Scale)
    );
}

#[test]
fn phantom_mode_is_skipped_in_mode_table() {
    let mut p = enabled_partial("DP-1");
    p.modes = vec![5, 6];
    let head = Head::create_from_partial(p, &modes()).unwrap();
    assert_eq!(head.mode_to_id, vec![(Mode { size: (800, 600), refresh: None }, 5)]);
}

#[test]
fn configuration_follows_last_reported_enabled() {
    let mut head = committed("DP-1");
    let mut off = PartialHead::new();
    off.enabled = Some(false);
    head.apply_partial(off, &modes()).unwrap();
    assert_eq!(head.configuration, None);

    let mut on = PartialHead::new();
    on.enabled = Some(true);
    on.position = Some((5, 5));
    head.apply_partial(on, &modes()).unwrap();
    assert_eq!(
        head.configuration,
        Some(HeadConfiguration {
            current_mode: None,
            position: (5, 5),
            transform: Transform::Normal,
            scale: SCALE_ONE,
            adaptive_sync: None,
        })
    );

    head.apply_partial(PartialHead::new(), &modes()).unwrap();
    assert!(head.configuration.is_some());
}

#[test]
fn apply_partial_errors() {
    let mut head = committed("DP-1");
    let mut renamed = PartialHead::new();
    renamed.model = Some("X".to_string());
    assert_eq!(
        head.apply_partial(renamed, &modes()).unwrap_err(),
        ApplyPartialHeadError::ImmutablePropertySet(ImmutableProperty::Model)
    );
    assert!(head.configuration.is_some());

    let mut off = PartialHead::new();
    off.enabled = Some(false);
    off.adaptive_sync = Some(true);
    assert_eq!(
        head.apply_partial(off, &modes()).unwrap_err(),
        ApplyPartialHeadError::ConfigurationPropertyOnDisabledHeadSet(
            ConfigurationProperty::AdaptiveSync
        )
    );

    let mut late = PartialHead::new();
    late.current_mode = Some(5);
    assert_eq!(
        head.apply_partial(late, &modes()).unwrap_err(),
        ApplyPartialHeadError::ConfigurationPropertyOnDisabledHeadSet(
            ConfigurationProperty::CurrentMode
        )
    );
}

#[test]
fn assigned_properties_in_order() {
    let mut p = PartialHead::new();
    assert_eq!(p.get_assigned_immutable_property(), None);
    assert_eq!(p.get_assigned_configuration_property(), None);
    p.serial_number = Some("1".to_string());
    p.description = Some("d".to_string());
    p.scale = Some(SCALE_ONE);
    p.position = Some((1, 1));
    assert_eq!(p.get_assigned_immutable_property(), Some(ImmutableProperty::Description));
    assert_eq!(p.get_assigned_configuration_property(), Some(ConfigurationProperty::Position));
}

#[test]
fn mode_requires_size() {
    assert_eq!(
        Mode::from_partial(PartialMode { size: Some((640, 480)), refresh: Some(75000) }),
        Ok(Mode { size: (640, 480), refresh: Some(75000) })
    );
    assert!(Mode::from_partial(PartialMode { size: None, refresh: Some(75000) }).is_err());
}

#[test]
fn transform_wire_values() {
    assert_eq!(Transform::from_wire(0), Ok(Transform::Normal));
    assert_eq!(Transform::from_wire(3), Ok(Transform::_270));
    assert_eq!(Transform::from_wire(7), Ok(Transform::Flipped270));
    assert_eq!(Transform::from_wire(8), Err(TransformConversionError::UnknownVariant(8)));
    assert_eq!(Transform::Flipped90.to_wire(), 5);
}

#[test]
fn barrier_commits_modes_and_reports_phantoms() {
    let mut app = AppData::new(false, LayoutData::new());
    app.head_added(1);
    app.head_event(1, HeadEvent::Name("DP-1".to_string()));
    app.head_event(1, HeadEvent::Description("d".to_string()));
    app.head_event(1, HeadEvent::Mode(10));
    app.head_event(1, HeadEvent::Mode(11));
    app.mode_event(10, ModeEvent::Size(1024, 768)).unwrap();
    app.head_event(1, HeadEvent::Enabled(false));
    let outcome = app.done().unwrap();
    assert_eq!(outcome.phantom_modes, vec![11]);
    assert_eq!(app.id_to_mode, vec![ModeState { id: 10, mode: Mode { size: (1024, 768), refresh: None } }]);
    assert_eq!(app.id_to_head.len(), 1);
    assert_eq!(app.id_to_head[0].head.configuration, None);
    assert_eq!(app.layout_data.layouts[0], vec![(app.id_to_head[0].head.identity.clone(), None)]);
}

#[test]
fn unknown_mode_event_is_refused() {
    let mut app = AppData::new(false, LayoutData::new());
    assert_eq!(app.mode_event(3, ModeEvent::Refresh(1)), Err(ModeEventError::UnknownMode(3)));
}

#[test]
fn mode_finished_prunes_head_tables() {
    let mut app = AppData::new(false, LayoutData::new());
    app.head_added(1);
    app.head_event(1, HeadEvent::Name("DP-1".to_string()));
    app.head_event(1, HeadEvent::Description("d".to_string()));
    app.head_event(1, HeadEvent::Mode(10));
    app.mode_event(10, ModeEvent::Size(1024, 768)).unwrap();
    app.head_event(1, HeadEvent::Enabled(false));
    app.done().unwrap();
    assert_eq!(app.id_to_head[0].head.mode_to_id.len(), 1);
    app.mode_finished(10);
    assert!(app.id_to_mode.is_empty());
    assert!(app.id_to_head[0].head.mode_to_id.is_empty());
}

#[test]
fn duplicate_identity_is_refused() {
    let mut app = AppData::new(false, LayoutData::new());
    for id in [1u32, 2] {
        app.head_added(id);
        app.head_event(id, HeadEvent::Name("DP-1".to_string()));
        app.head_event(id, HeadEvent::Description("d".to_string()));
        app.head_event(id, HeadEvent::Enabled(false));
    }
    assert_eq!(app.done().unwrap_err(), BarrierError::DuplicateIdentity(2));
}

#[test]
fn barrier_errors_on_incomplete_or_invalid_heads() {
    let mut app = AppData::new(false, LayoutData::new());
    app.head_added(4);
    app.head_event(4, HeadEvent::Name("DP-1".to_string()));
    assert_eq!(
        app.done().unwrap_err(),
        BarrierError::CreateHead(4, CreateHeadError::MissingDescription)
    );

    let mut app = AppData::new(false, LayoutData::new());
    app.head_added(4);
    app.head_event(4, HeadEvent::Name("DP-1".to_string()));
    app.head_event(4, HeadEvent::Description("d".to_string()));
    app.head_event(4, HeadEvent::Enabled(false));
    app.done().unwrap();
    app.head_event(4, HeadEvent::Name("DP-9".to_string()));
    assert_eq!(
        app.done().unwrap_err(),
        BarrierError::ApplyPartial(4, ApplyPartialHeadError::ImmutablePropertySet(ImmutableProperty::Name))
    );
}

#[test]
fn current_mode_must_be_committed() {
    let mut app = AppData::new(false, LayoutData::new());
    app.head_added(4);
    app.head_event(4, HeadEvent::Name("DP-1".to_string()));
    app.head_event(4, HeadEvent::Description("d".to_string()));
    app.head_event(4, HeadEvent::Enabled(true));
    app.head_event(4, HeadEvent::CurrentMode(99));
    app.head_event(4, HeadEvent::Position(0, 0));
    app.head_event(4, HeadEvent::Transform(Transform::Normal));
    app.head_event(4, HeadEvent::Scale(SCALE_ONE));
    assert_eq!(app.done().unwrap_err(), BarrierError::MissingCurrentMode(4));
}

#[test]
fn head_finished_removes_head_and_requests_apply() {
    let mut app = AppData::new(false, LayoutData::new());
    app.head_added(4);
    app.head_event(4, HeadEvent::Name("DP-1".to_string()));
    app.head_event(4, HeadEvent::Description("d".to_string()));
    app.head_event(4, HeadEvent::Enabled(false));
    app.done().unwrap();
    assert_eq!(app.done_action, DoneAction::Update);
    app.head_finished(4);
    assert!(app.id_to_head.is_empty());
    assert_eq!(app.done_action, DoneAction::Apply);
    assert_eq!(app.head_index_for_identity(&HeadIdentity {
        name: "DP-1".to_string(),
        description: "d".to_string(),
        make: None,
        model: None,
        serial_number: None,
    }), None);
}

#[test]
fn disabling_with_configuration_field_still_clears_and_adds_modes() {
    let mut head = committed("DP-1");
    let more = vec![
        ModeState { id: 5, mode: Mode { size: (800, 600), refresh: None } },
        ModeState { id: 6, mode: Mode { size: (1024, 768), refresh: Some(60000) } },
    ];
    let mut off = PartialHead::new();
    off.enabled = Some(false);
    off.modes = vec![6, 7];
    off.position = Some((3, 3));
    assert_eq!(
        head.apply_partial(off, &more).unwrap_err(),
        ApplyPartialHeadError::ConfigurationPropertyOnDisabledHeadSet(ConfigurationProperty::Position)
    );
    assert_eq!(head.configuration, None);
    assert_eq!(
        head.mode_to_id,
        vec![
            (Mode { size: (800, 600), refresh: None }, 5),
            (Mode { size: (1024, 768), refresh: Some(60000) }, 6),
        ]
    );
}
