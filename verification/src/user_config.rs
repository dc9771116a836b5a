//! The settings of one user for one workspace.
use vstd::prelude::*;
use crate::text;
use crate::text::copied;

verus! {

/// The file, in the launcher directory, that holds the settings.
pub const USER_CONFIG_FILENAME: &'static str = "user_config.json";

/// The settings of one user for one workspace.
#[derive(Debug, PartialEq, Eq)]
pub struct UserConfig {
    /// Whether to run clippy on save alongside the compiler.
    pub clippy: bool,
    /// Whether discovery looks at the package of the saved file only, and not
    /// at the whole workspace.
    pub per_package_workspaces: bool,
    /// The `output_base` of the flycheck server, where it is not the usual
    /// one.
    pub output_base: Option<String>,
}

/// The contents of the settings.
pub struct UserConfigView {
    pub clippy: bool,
    pub per_package_workspaces: bool,
    pub output_base: Option<Seq<char>>,
}

impl View for UserConfig {
    type V = UserConfigView;

    open spec fn view(&self) -> UserConfigView {
        UserConfigView {
            clippy: self.clippy,
            per_package_workspaces: self.per_package_workspaces,
            output_base: text::opt_view(self.output_base),
        }
    }
}

/// The settings where nothing is set. One package at a time, since a whole
/// workspace can take more memory than there is.
pub open spec fn default_config() -> UserConfigView {
    UserConfigView { clippy: false, per_package_workspaces: true, output_base: None }
}

impl Default for UserConfig {
    fn default() -> (r: Self)
        ensures
            r@ == default_config(),
    {
        UserConfig { clippy: false, per_package_workspaces: true, output_base: None }
    }
}

/// The settings as far as a file holds them.
#[derive(Debug, PartialEq, Eq)]
pub struct ConfigFields {
    pub clippy: Option<bool>,
    pub per_package_workspaces: Option<bool>,
    pub output_base: Option<String>,
}

/// What reading the file of the settings gave.
#[derive(Debug, PartialEq, Eq)]
pub enum ConfigRead {
    /// There is no file.
    Missing,
    /// The file cannot be read.
    Unreadable,
    /// The file holds no settings.
    Malformed,
    /// The settings that the file holds.
    Fields(ConfigFields),
}

/// The settings that a file gives: its own, and the default of every one that
/// it does not hold. A file that is missing, unreadable or malformed holds
/// none.
pub open spec fn loaded(read: ConfigRead) -> UserConfigView {
    match read {
        ConfigRead::Fields(fields) => UserConfigView {
            clippy: match fields.clippy {
                Some(b) => b,
                None => default_config().clippy,
            },
            per_package_workspaces: match fields.per_package_workspaces {
                Some(b) => b,
                None => default_config().per_package_workspaces,
            },
            output_base: text::opt_view(fields.output_base),
        },
        _ => default_config(),
    }
}

/// The settings that a file gives.
pub fn load(read: &ConfigRead) -> (r: UserConfig)
    ensures
        r@ == loaded(*read),
{
    let mut r = UserConfig::default();
    match read {
        ConfigRead::Fields(fields) => {
            match &fields.clippy {
                Some(b) => {
                    r.clippy = *b;
                },
                None => {},
            }
            match &fields.per_package_workspaces {
                Some(b) => {
                    r.per_package_workspaces = *b;
                },
                None => {},
            }
            match &fields.output_base {
                Some(base) => {
                    r.output_base = Some(copied(base));
                },
                None => {},
            }
        },
        _ => {},
    }
    r
}

/// Whether `fields` is what a file is to hold for `config`: every setting but
/// an `output_base` that is not set.
pub open spec fn is_saved(fields: ConfigFields, config: UserConfigView) -> bool {
    &&& fields.clippy == Some(config.clippy)
    &&& fields.per_package_workspaces == Some(config.per_package_workspaces)
    &&& text::opt_view(fields.output_base) == config.output_base
}

/// What a file is to hold for the settings.
pub fn saved(config: &UserConfig) -> (r: ConfigFields)
    ensures
        is_saved(r, config@),
{
    ConfigFields {
        clippy: Some(config.clippy),
        per_package_workspaces: Some(config.per_package_workspaces),
        output_base: match &config.output_base {
            Some(base) => Some(copied(base)),
            None => None,
        },
    }
}

/// A file that holds what it is to hold for some settings gives those settings
/// back.
pub proof fn lemma_saved_reads_back(fields: ConfigFields, config: UserConfigView)
    requires
        is_saved(fields, config),
    ensures
        loaded(ConfigRead::Fields(fields)) == config,
{
}

/// A file that is missing, unreadable or malformed gives the defaults.
pub proof fn lemma_bad_file_gives_defaults(read: ConfigRead)
    requires
        !(read is Fields),
    ensures
        loaded(read) == default_config(),
{
}

/// A setting that a file holds counts, whatever else the file holds; without it
/// clippy does not run, one package is looked at and the server has no place of
/// its own.
pub proof fn lemma_each_setting(fields: ConfigFields, read: ConfigRead)
    ensures
        ({
            let r = loaded(ConfigRead::Fields(fields));
            &&& fields.clippy matches Some(b) ==> r.clippy == b
            &&& fields.clippy is None ==> !r.clippy
            &&& fields.per_package_workspaces matches Some(b) ==> r.per_package_workspaces == b
            &&& fields.per_package_workspaces is None ==> r.per_package_workspaces
            &&& fields.output_base matches Some(base) ==> r.output_base == Some(base@)
            &&& fields.output_base is None ==> r.output_base is None
        }),
        !(read is Fields) ==> !loaded(read).clippy && loaded(read).per_package_workspaces
            && loaded(read).output_base is None,
{
}

/// Saving loses no setting.
pub proof fn lemma_saved_fields(fields: ConfigFields, config: UserConfig)
    requires
        is_saved(fields, config@),
    ensures
        fields.clippy == Some(config.clippy),
        fields.per_package_workspaces == Some(config.per_package_workspaces),
        config.output_base matches Some(base) ==> (fields.output_base matches Some(b) && b@
            == base@),
        config.output_base is None ==> fields.output_base is None,
{
}

} // verus!
