use wl_distore::complete::{HeadIdentity, Mode, SCALE_ONE};
use wl_distore::layout::{
    HeadRequest, LayoutData, LayoutMatchScore, ModeRequest, SavedConfiguration, SavedLayoutData,
    Transform,
};

fn id(name: &str, make: Option<&str>, model: Option<&str>, serial: Option<&str>) -> HeadIdentity {
    HeadIdentity {
        name: name.to_string(),
        description: format!("{name}!"),
        make: make.map(|s| s.to_string()),
        model: model.map(|s| s.to_string()),
        serial_number: serial.map(|s| s.to_string()),
    }
}

#[test]
fn identical_sets_match_exactly_in_any_order() {
    let a = id("A", Some("m"), Some("x"), None);
    let b = id("B", None, None, None);
    let r = LayoutMatchScore::score(&vec![a.clone(), b.clone()], &vec![b, a]).unwrap();
    assert_eq!(r, (LayoutMatchScore::Exact, vec![]));
}

#[test]
fn different_sizes_never_match() {
    let a = id("A", Some("m"), Some("x"), None);
    let b = id("B", Some("m"), Some("x"), None);
    assert_eq!(LayoutMatchScore::score(&vec![a.clone()], &vec![a, b]), None);
}

#[test]
fn residual_without_make_or_model_is_rejected() {
    let stored = id("A", None, Some("x"), Some("1"));
    let live = id("B", None, Some("x"), Some("1"));
    assert_eq!(LayoutMatchScore::score(&vec![stored], &vec![live]), None);
    let stored = id("A", Some("m"), None, Some("1"));
    let live = id("B", Some("m"), None, Some("1"));
    assert_eq!(LayoutMatchScore::score(&vec![stored], &vec![live]), None);
}

#[test]
fn fuzzy_match_pairs_one_to_one() {
    let s1 = id("A", Some("m"), Some("x"), Some("1"));
    let s2 = id("B", Some("m"), Some("x"), Some("2"));
    let shared = id("C", None, None, None);
    let q1 = id("D", Some("m"), Some("x"), Some("1"));
    let q2 = id("E", Some("m"), Some("x"), Some("2"));
    let r = LayoutMatchScore::score(
        &vec![s1.clone(), shared.clone(), s2.clone()],
        &vec![q2.clone(), shared, q1.clone()],
    )
    .unwrap();
    assert_eq!(r, (LayoutMatchScore::SameHeads, vec![(s2, q2), (s1, q1)]));
}

#[test]
fn unmatched_live_identity_rejects_layout() {
    let s1 = id("A", Some("m"), Some("x"), Some("1"));
    let s2 = id("B", Some("m"), Some("x"), Some("1"));
    let q1 = id("D", Some("m"), Some("x"), Some("1"));
    let q2 = id("E", Some("m"), Some("x"), Some("9"));
    assert_eq!(LayoutMatchScore::score(&vec![s1, s2], &vec![q1, q2]), None);
}

#[test]
fn duplicate_fingerprints_are_consumed_once() {
    let s1 = id("A", Some("m"), Some("x"), None);
    let s2 = id("B", Some("m"), Some("y"), None);
    let q1 = id("C", Some("m"), Some("x"), None);
    let q2 = id("D", Some("m"), Some("x"), None);
    assert_eq!(LayoutMatchScore::score(&vec![s1, s2], &vec![q1, q2]), None);
}

#[test]
fn first_exact_match_wins_over_earlier_fuzzy_match() {
    let live = id("DP-2", Some("m"), Some("x"), Some("1"));
    let old = id("DP-1", Some("m"), Some("x"), Some("1"));
    let mut store = LayoutData::new();
    store.layouts.push(vec![(old, None)]);
    store.layouts.push(vec![(live.clone(), None)]);
    store.layouts.push(vec![(live.clone(), None)]);
    assert_eq!(store.find_layout_match(&vec![live]), Some((1, vec![])));
}

#[test]
fn first_fuzzy_match_wins() {
    let live = id("DP-3", Some("m"), Some("x"), Some("1"));
    let a = id("DP-1", Some("m"), Some("x"), Some("1"));
    let b = id("DP-2", Some("m"), Some("x"), Some("1"));
    let mut store = LayoutData::new();
    store.layouts.push(vec![(id("Z", None, None, None), None)]);
    store.layouts.push(vec![(a.clone(), None)]);
    store.layouts.push(vec![(b, None)]);
    assert_eq!(store.find_layout_match(&vec![live.clone()]), Some((1, vec![(a, live)])));
}

#[test]
fn empty_store_matches_nothing() {
    let store = LayoutData::new();
    assert_eq!(store.find_layout_match(&vec![id("A", None, None, None)]), None);
}

#[test]
fn saved_form_round_trip_keeps_order() {
    let cfg = SavedConfiguration {
        mode: Some(Mode { size: (3840, 2160), refresh: None }),
        position: (0, 0),
        transform: Transform::Flipped180,
        scale: 2.0f64.to_bits(),
        adaptive_sync: Some(true),
    };
    let mut store = LayoutData::new();
    store.layouts.push(vec![(id("B", None, None, None), None), (id("A", Some("m"), None, None), Some(cfg))]);
    store.layouts.push(vec![(id("C", None, None, None), Some(cfg))]);
    let saved = SavedLayoutData::from_layout_data(&store);
    assert_eq!(saved.layouts, store.layouts);
    let restored = LayoutData::from_saved(&saved);
    assert_eq!(restored.layouts, store.layouts);
}

#[test]
fn saved_configuration_request_uses_custom_mode_when_not_advertised() {
    let cfg = SavedConfiguration {
        mode: Some(Mode { size: (3840, 2160), refresh: None }),
        position: (7, 8),
        transform: Transform::_180,
        scale: SCALE_ONE,
        adaptive_sync: Some(false),
    };
    let table = vec![(Mode { size: (3840, 2160), refresh: Some(60000) }, 4)];
    assert_eq!(
        cfg.apply(9, &table),
        HeadRequest::Enable {
            head: 9,
            mode: Some(ModeRequest::Custom(3840, 2160, 0)),
            position: (7, 8),
            transform: Transform::_180,
            scale: SCALE_ONE,
            adaptive_sync: Some(false),
        }
    );
    let table = vec![(Mode { size: (3840, 2160), refresh: None }, 4)];
    assert_eq!(
        cfg.apply(9, &table),
        HeadRequest::Enable {
            head: 9,
            mode: Some(ModeRequest::Existing(4)),
            position: (7, 8),
            transform: Transform::_180,
            scale: SCALE_ONE,
            adaptive_sync: Some(false),
        }
    );
}

#[test]
fn loading_merges_repeated_identities() {
    let a = id("A", Some("m"), None, None);
    let b = id("B", None, None, None);
    let first = SavedConfiguration {
        mode: None,
        position: (1, 1),
        transform: Transform::Normal,
        scale: SCALE_ONE,
        adaptive_sync: None,
    };
    let last = SavedConfiguration { position: (2, 2), ..first };
    let saved = SavedLayoutData {
        layouts: vec![vec![(a.clone(), Some(first)), (b.clone(), None), (a.clone(), Some(last))]],
    };
    let restored = LayoutData::from_saved(&saved);
    assert_eq!(restored.layouts, vec![vec![(a, Some(last)), (b, None)]]);
}
