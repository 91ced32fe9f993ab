use wl_distore::config::{
    config_path, merge_configs, CollectArgsError, Command, Config, Flags, DEFAULT_CONFIG_PATH,
    DEFAULT_LAYOUTS_PATH,
};

fn flags(config: Option<&str>, layouts: Option<&str>, save: bool) -> Flags {
    Flags {
        config: config.map(|s| s.to_string()),
        layouts: layouts.map(|s| s.to_string()),
        command: if save { Some(Command::SaveCurrent) } else { None },
    }
}

#[test]
fn defaults_apply_without_overrides() {
    let mut f = flags(None, None, false);
    assert_eq!(config_path(&f), DEFAULT_CONFIG_PATH);
    let r = merge_configs(&mut f, Config::default()).unwrap();
    assert_eq!(r, (DEFAULT_LAYOUTS_PATH.to_string(), None, false));
}

#[test]
fn flags_override_file_which_overrides_defaults() {
    let mut f = flags(Some("/etc/c.toml"), Some("/tmp/flag.json"), true);
    assert_eq!(config_path(&f), "/etc/c.toml");
    let file = Config { layouts: Some("/tmp/file.json".to_string()), apply_command: Some("notify".to_string()) };
    let r = merge_configs(&mut f, file).unwrap();
    assert_eq!(r, ("/tmp/flag.json".to_string(), Some("notify".to_string()), true));

    let mut f = flags(None, None, false);
    let file = Config { layouts: Some("/tmp/file.json".to_string()), apply_command: None };
    let r = merge_configs(&mut f, file).unwrap();
    assert_eq!(r.0, "/tmp/file.json");
}

#[test]
fn directory_layouts_path_is_refused() {
    let mut f = flags(None, Some("/tmp/layouts/"), false);
    assert_eq!(
        merge_configs(&mut f, Config::default()),
        Err(CollectArgsError::LayoutsPathIsDirectory("/tmp/layouts/".to_string()))
    );
}

#[test]
fn override_with_keeps_unset_fields() {
    let mut c = Config::create_default();
    c.override_with(Config { layouts: None, apply_command: Some("x".to_string()) });
    assert_eq!(c.layouts.as_deref(), Some(DEFAULT_LAYOUTS_PATH));
    assert_eq!(c.apply_command.as_deref(), Some("x"));
    let mut f = flags(None, Some("a"), false);
    let taken = Config::take_from_flags(&mut f);
    assert_eq!(taken.layouts.as_deref(), Some("a"));
    assert!(f.layouts.is_none());
}
