use vstd::prelude::*;
use vstd::utf8::encode_utf8;

verus! {

/// The settings that come from the command line.
#[derive(Debug)]
pub struct Flags {
    /// The config file to read from.
    pub config: Option<String>,
    /// The file to save and load layout data to/from.
    pub layouts: Option<String>,
    pub command: Option<Command>,
}

/// A subcommand of the command line.
#[derive(Clone, Copy, Debug, PartialEq, Eq, Structural)]
pub enum Command {
    /// Saves the current layout and exits.
    SaveCurrent,
}

/// The settings that a config file or the command line can give.
#[derive(Debug, Default)]
pub struct Config {
    /// The file to save and load layout data to/from.
    pub layouts: Option<String>,
    /// The command to run after applying a layout.
    pub apply_command: Option<String>,
}

/// The settings the daemon runs with.
#[derive(Debug)]
pub struct Args {
    /// The layouts file, with a leading `~` expanded.
    pub layouts: String,
    pub apply_command: Option<String>,
    pub save_and_exit: bool,
}

/// Why the settings could not be collected; causes are carried as messages.
#[derive(Debug, PartialEq, Eq)]
pub enum CollectArgsError {
    FailedToReadConfigFile(String),
    FailedToParseConfigFile(String),
    LayoutsPathIsDirectory(String),
    CouldNotExpandUser(String, String),
}

/// The config file read where the command line names none.
pub const DEFAULT_CONFIG_PATH: &'static str = "~/.config/wl-distore/config.toml";

/// The layouts file used where neither the config file nor the command line names one.
pub const DEFAULT_LAYOUTS_PATH: &'static str = "~/.local/state/wl-distore/layouts.json";

/// The value of `overrides` where it has one, else that of `base`.
pub open spec fn overridden(base: Option<String>, overrides: Option<String>) -> Option<String> {
    match overrides {
        Some(v) => Some(v),
        None => base,
    }
}

/// Whether the UTF-8 encoding of a path ends in a slash.
pub open spec fn ends_in_slash(path: Seq<char>) -> bool {
    encode_utf8(path).len() > 0 && encode_utf8(path).last() == 0x2f
}

impl Config {
    /// The config that all fields fall back to.
    pub fn create_default() -> (r: Config)
        ensures
            r.layouts matches Some(l) && l@ == DEFAULT_LAYOUTS_PATH@,
            r.apply_command is None,
    {
        Config { layouts: Some(DEFAULT_LAYOUTS_PATH.to_owned()), apply_command: None }
    }

    /// Takes the settings of `flags` that a config can hold.
    pub fn take_from_flags(flags: &mut Flags) -> (r: Config)
        ensures
            r.layouts == old(flags).layouts,
            r.apply_command is None,
            final(flags).layouts is None,
            final(flags).config == old(flags).config,
            final(flags).command == old(flags).command,
    {
        Config { layouts: flags.layouts.take(), apply_command: None }
    }

    /// Overrides each field with the value of `overrides`, where it has one.
    pub fn override_with(&mut self, overrides: Config)
        ensures
            final(self).layouts == overridden(old(self).layouts, overrides.layouts),
            final(self).apply_command == overridden(
                old(self).apply_command,
                overrides.apply_command,
            ),
    {
        let layouts = self.layouts.take();
        self.layouts = match overrides.layouts {
            Some(v) => Some(v),
            None => layouts,
        };
        let apply_command = self.apply_command.take();
        self.apply_command = match overrides.apply_command {
            Some(v) => Some(v),
            None => apply_command,
        };
    }
}

/// The config file that `flags` names, else the default one.
pub fn config_path(flags: &Flags) -> (r: String)
    ensures
        match flags.config {
            Some(c) => r@ == c@,
            None => r@ == DEFAULT_CONFIG_PATH@,
        },
{
    match &flags.config {
        Some(c) => c.clone(),
        None => DEFAULT_CONFIG_PATH.to_owned(),
    }
}

/// Whether the UTF-8 encoding of `path` ends in a slash.
pub fn is_directory_path(path: &String) -> (r: bool)
    ensures
        r == ends_in_slash(path@),
{
    let bytes = path.as_str().as_bytes();
    let n = bytes.len();
    n > 0 && bytes[n - 1] == 0x2f
}

/// The settings from the defaults, overridden by the config file and then by
/// the command line. The layouts path is returned as given, before `~` is
/// expanded; a path that ends in a slash names a directory and is refused.
pub fn merge_configs(flags: &mut Flags, file_config: Config) -> (r: Result<
    (String, Option<String>, bool),
    CollectArgsError,
>)
    ensures
        ({
            let path = match old(flags).layouts {
                Some(l) => l@,
                None => match file_config.layouts {
                    Some(l) => l@,
                    None => DEFAULT_LAYOUTS_PATH@,
                },
            };
            if ends_in_slash(path) {
                r matches Err(CollectArgsError::LayoutsPathIsDirectory(p)) && p@ == path
            } else {
                r matches Ok((l, apply_command, save_and_exit)) && l@ == path && apply_command
                    == file_config.apply_command && save_and_exit == (old(flags).command == Some(
                    Command::SaveCurrent,
                ))
            }
        }),
{
    let flag_config = Config::take_from_flags(flags);
    let mut config = Config::create_default();
    config.override_with(file_config);
    config.override_with(flag_config);
    let layouts = match config.layouts {
        Some(l) => l,
        None => {
            // The defaults always name a layouts file.
            assert(false);
            String::new()
        },
    };
    if is_directory_path(&layouts) {
        return Err(CollectArgsError::LayoutsPathIsDirectory(layouts));
    }
    let save_and_exit = match flags.command {
        Some(c) => c == Command::SaveCurrent,
        None => false,
    };
    Ok((layouts, config.apply_command, save_and_exit))
}

} // verus!
