//! The user's settings.

use crate::paths::{join, with_part};
use crate::text::{chars_of, joined, lowered, same_text, to_lower, trim, trimmed};
use vstd::prelude::*;

verus! {

/// All settings.
#[derive(Debug, Clone)]
pub struct AppConfig {
    pub zoxide: ZoxideConfig,
    pub keys: KeyConfig,
}

/// The key bindings of an attached session, as written by the user.
#[derive(Debug, Clone)]
pub struct KeyConfig {
    pub open: String,
    pub detach: String,
}

/// The settings of the directory picker.
#[derive(Debug, Clone)]
pub struct ZoxideConfig {
    pub enabled: bool,
    pub auto_open: bool,
    pub limit: usize,
}

impl Default for AppConfig {
    fn default() -> (r: Self)
        ensures
            r.zoxide == (ZoxideConfig { enabled: true, auto_open: false, limit: 30 }),
            r.keys.open@ == "ctrl-g"@,
            r.keys.detach@ == "ctrl-]"@,
    {
        AppConfig { zoxide: ZoxideConfig::default(), keys: KeyConfig::default() }
    }
}

impl Default for KeyConfig {
    fn default() -> (r: Self)
        ensures
            r.open@ == "ctrl-g"@,
            r.detach@ == "ctrl-]"@,
    {
        KeyConfig { open: default_open_key_string(), detach: default_detach_key_string() }
    }
}

impl Default for ZoxideConfig {
    fn default() -> (r: Self)
        ensures
            r == (ZoxideConfig { enabled: true, auto_open: false, limit: 30 }),
    {
        ZoxideConfig {
            enabled: default_zoxide_enabled(),
            auto_open: false,
            limit: default_zoxide_limit(),
        }
    }
}

/// The directory picker is on unless switched off.
pub fn default_zoxide_enabled() -> (r: bool)
    ensures
        r,
{
    true
}

/// How many directories the picker shows unless told otherwise.
pub fn default_zoxide_limit() -> (r: usize)
    ensures
        r == 30,
{
    30
}

/// The binding that opens the picker.
pub fn default_open_key() -> (r: &'static str)
    ensures
        r@ == "ctrl-g"@,
{
    "ctrl-g"
}

/// The binding that detaches.
pub fn default_detach_key() -> (r: &'static str)
    ensures
        r@ == "ctrl-]"@,
{
    "ctrl-]"
}

/// `default_open_key` as a value of its own.
pub fn default_open_key_string() -> (r: String)
    ensures
        r@ == "ctrl-g"@,
{
    default_open_key().to_owned()
}

/// `default_detach_key` as a value of its own.
pub fn default_detach_key_string() -> (r: String)
    ensures
        r@ == "ctrl-]"@,
{
    default_detach_key().to_owned()
}

/// Whether a binding reads `ctrl-` and one ASCII letter, in any case.
pub open spec fn is_ctrl_letter(binding: Seq<char>) -> bool {
    &&& binding.len() == 6
    &&& lowered(binding.take(5)) == "ctrl-"@
    &&& 'a' <= binding[5] <= 'z' || 'A' <= binding[5] <= 'Z'
}

/// The binding that a written value stands for: `ctrl-]` in any case, or `ctrl-` and a
/// letter, white space around it left out; anything else stands for `fallback`.
pub open spec fn normalized(value: Seq<char>, fallback: Seq<char>) -> Seq<char> {
    let binding = trimmed(value);
    if lowered(binding) == "ctrl-]"@ {
        "ctrl-]"@
    } else if is_ctrl_letter(binding) {
        binding
    } else {
        fallback
    }
}

/// Checks a written binding.
pub fn normalized_key_binding<'a>(value: &'a str, fallback: &'a str) -> (r: &'a str)
    ensures
        r@ == normalized(value@, fallback@),
{
    let binding = trim(value);
    if same_text(to_lower(binding).as_str(), "ctrl-]") {
        return "ctrl-]";
    }
    let chars = chars_of(binding);
    if chars.len() == 6 {
        let last = chars[5];
        let prefix = binding.substring_char(0, 5);
        assert(prefix@ =~= binding@.take(5));
        if same_text(to_lower(prefix).as_str(), "ctrl-") && (('a' <= last && last <= 'z') || ('A'
            <= last && last <= 'Z')) {
            return binding;
        }
    }
    fallback
}

/// What the attempt to read the settings file came to.
pub enum ConfigFile {
    /// There is no such file, or no place to look for it.
    Missing,
    /// It could not be read.
    Unreadable,
    /// It does not hold valid settings.
    Malformed,
    /// It holds these settings.
    Parsed(AppConfig),
}

impl AppConfig {
    /// The settings to use, given what came of reading the file at `path`: the defaults if
    /// there is none, or a message that says what failed.
    pub fn load(path: &str, file: ConfigFile) -> (r: Result<Self, String>)
        ensures
            match file {
                ConfigFile::Missing => r matches Ok(config) && {
                    &&& config.zoxide == (ZoxideConfig { enabled: true, auto_open: false, limit: 30 })
                    &&& config.keys.open@ == "ctrl-g"@
                    &&& config.keys.detach@ == "ctrl-]"@
                },
                ConfigFile::Unreadable => r matches Err(message) && message@
                    == "failed to read config "@ + path@,
                ConfigFile::Malformed => r matches Err(message) && message@
                    == "failed to parse config "@ + path@,
                ConfigFile::Parsed(config) => r == Ok::<AppConfig, String>(config),
            },
    {
        match file {
            ConfigFile::Missing => Ok(AppConfig::default()),
            ConfigFile::Unreadable => Err(joined("failed to read config ", path)),
            ConfigFile::Malformed => Err(joined("failed to parse config ", path)),
            ConfigFile::Parsed(config) => Ok(config),
        }
    }

    /// The binding that opens the picker.
    pub fn open_key_binding(&self) -> (r: &str)
        ensures
            r@ == normalized(self.keys.open@, "ctrl-g"@),
    {
        normalized_key_binding(self.keys.open.as_str(), default_open_key())
    }

    /// The binding that detaches.
    pub fn detach_key_binding(&self) -> (r: &str)
        ensures
            r@ == normalized(self.keys.detach@, "ctrl-]"@),
    {
        normalized_key_binding(self.keys.detach.as_str(), default_detach_key())
    }
}

/// Where the settings file is: under the configuration directory if one is set, else under
/// `.config` in the home directory, if that is known.
pub fn config_path(config_home: Option<String>, home: Option<String>) -> (r: Option<String>)
    ensures
        match (config_home, home) {
            (Some(dir), _) => r matches Some(path) && path@ == with_part(
                with_part(dir@, "fish-session"@),
                "config.json"@,
            ),
            (None, Some(dir)) => r matches Some(path) && path@ == with_part(
                with_part(with_part(dir@, ".config"@), "fish-session"@),
                "config.json"@,
            ),
            (None, None) => r is None,
        },
{
    if let Some(dir) = config_home {
        return Some(join(join(dir.as_str(), "fish-session").as_str(), "config.json"));
    }
    match home {
        Some(dir) => Some(
            join(
                join(join(dir.as_str(), ".config").as_str(), "fish-session").as_str(),
                "config.json",
            ),
        ),
        None => None,
    }
}

/// Whether the program is asked for its settings: the first argument after its own name says
/// so.
pub fn asks_for_config(args: &[String]) -> (r: bool)
    ensures
        r == (args@.len() >= 2 && args@[1]@ == "config"@),
{
    args.len() >= 2 && same_text(args[1].as_str(), "config")
}

/// What the arguments after `config` ask for: the line to print, or the message of the error.
pub fn run_config_command(args: &[String], config: &AppConfig) -> (r: Result<String, String>)
    ensures
        ({
            let asks_key = args@.len() == 2 && args@[0]@ == "key"@;
            match r {
                Ok(line) => asks_key && {
                    ||| args@[1]@ == "open"@ && line@ == normalized(config.keys.open@, "ctrl-g"@)
                    ||| args@[1]@ == "detach"@ && line@ == normalized(
                        config.keys.detach@,
                        "ctrl-]"@,
                    )
                },
                Err(message) => {
                    &&& !asks_key || (args@[1]@ != "open"@ && args@[1]@ != "detach"@)
                    &&& message@ == "usage: fish-session config key <open|detach>"@
                },
            }
        }),
{
    if args.len() == 2 && same_text(args[0].as_str(), "key") {
        if same_text(args[1].as_str(), "open") {
            return Ok(config.open_key_binding().to_owned());
        }
        if same_text(args[1].as_str(), "detach") {
            return Ok(config.detach_key_binding().to_owned());
        }
    }
    Err("usage: fish-session config key <open|detach>".to_owned())
}

} // verus!
