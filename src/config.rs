//! Settings that the pipeline reads: the model service, the prompts, the paths.
use vstd::prelude::*;

use crate::text::{chars_of, string_of};

verus! {

/// Failures of loading or checking the settings.
#[derive(Debug)]
pub enum ConfigError {
    /// The settings file could not be read.
    ReadError(String),
    /// The settings file is not valid.
    ParseError(String),
    /// A required value is missing.
    MissingValue(String),
    /// A value is out of range.
    InvalidValue { key: String, message: String },
    /// No settings directory could be found.
    NoConfigDir,
}

/// The key that stands in a fresh settings file until the user sets one.
pub open spec fn key_placeholder() -> Seq<char> {
    seq!['Y', 'O', 'U', 'R', '_', 'A', 'P', 'I', '_', 'K', 'E', 'Y', '_', 'H', 'E', 'R', 'E']
}

/// Access to a chat-completion service.
#[derive(Clone, Debug)]
pub struct ApiConfig {
    /// The secret key.
    pub key: String,
    /// The base URL of the service.
    pub base_url: String,
    /// The model to ask.
    pub model: String,
}

impl Default for ApiConfig {
    fn default() -> (r: ApiConfig)
        ensures
            r.key@ == key_placeholder(),
    {
        let k: Vec<char> = vec!['Y', 'O', 'U', 'R', '_', 'A', 'P', 'I', '_', 'K', 'E', 'Y', '_', 'H', 'E', 'R', 'E'];
        assert(k@ =~= key_placeholder());
        ApiConfig {
            key: string_of(&k),
            base_url: crate::text::owned("https://api.openai.com/v1"),
            model: crate::text::owned("gpt-4o-mini"),
        }
    }
}

/// Whether a key has been set: not empty and not the placeholder.
pub open spec fn key_configured(key: Seq<char>) -> bool {
    key.len() > 0 && key != key_placeholder()
}

impl ApiConfig {
    /// Whether the key has been set.
    pub fn is_configured(&self) -> (r: bool)
        ensures
            r == key_configured(self.key@),
    {
        let k = chars_of(self.key.as_str());
        let p: Vec<char> = vec!['Y', 'O', 'U', 'R', '_', 'A', 'P', 'I', '_', 'K', 'E', 'Y', '_', 'H', 'E', 'R', 'E'];
        assert(p@ =~= key_placeholder());
        if k.len() == 0 {
            return false;
        }
        if k.len() == p.len() && crate::text::starts_with_exec(&k, &p) {
            assert(k@ =~= p@);
            return false;
        }
        proof {
            if k@ == p@ {
                assert(k@.take(p@.len() as int) =~= k@);
            }
        }
        true
    }
}

/// The system prompts.
#[derive(Clone, Debug)]
pub struct PromptsConfig {
    /// For translating titles.
    pub title_translation: String,
    /// For translating chapter text.
    pub content_translation: String,
    /// For extracting names.
    pub name_scout: String,
}

impl Default for PromptsConfig {
    fn default() -> (r: PromptsConfig)
        ensures
            r.name_scout@.len() > 0,
    {
        let s: Vec<char> = vec!['Y', 'o', 'u', ' ', 'r', 'e', 'a', 'd', ' ', 'J', 'a', 'p', 'a', 'n', 'e', 's', 'e', ' ', 'f', 'i', 'c', 't', 'i', 'o', 'n', ' ', 't', 'e', 'x', 't', ' ', 'a', 'n', 'd', ' ', 'e', 'x', 't', 'r', 'a', 'c', 't', ' ', 'c', 'h', 'a', 'r', 'a', 'c', 't', 'e', 'r', ' ', 'n', 'a', 'm', 'e', ' ', 'p', 'a', 'r', 't', 's', '.', '\n', 'R', 'e', 't', 'u', 'r', 'n', ' ', 'O', 'N', 'L', 'Y', ' ', 'J', 'S', 'O', 'N', ' ', 'w', 'i', 't', 'h', ' ', 't', 'h', 'i', 's', ' ', 's', 'h', 'a', 'p', 'e', ':', '\n', '{', '"', 'n', 'a', 'm', 'e', 's', '"', ':', '[', '{', '"', 'o', 'r', 'i', 'g', 'i', 'n', 'a', 'l', '"', ':', '"', '<', 'e', 'x', 'a', 'c', 't', ' ', 'n', 'a', 'm', 'e', ' ', 'c', 'h', 'a', 'r', 'a', 'c', 't', 'e', 'r', 's', '>', '"', ',', '"', 'p', 'a', 'r', 't', '"', ':', '"', 'f', 'a', 'm', 'i', 'l', 'y', '|', 'g', 'i', 'v', 'e', 'n', '|', 'u', 'n', 'k', 'n', 'o', 'w', 'n', '"', ',', '"', 'e', 'n', 'g', 'l', 'i', 's', 'h', '"', ':', '"', '<', 'b', 'e', 's', 't', ' ', 'E', 'n', 'g', 'l', 'i', 's', 'h', ' ', 'r', 'e', 'n', 'd', 'e', 'r', 'i', 'n', 'g', '>', '"', '}', ']', '}', '\n', 'T', 'r', 'e', 'a', 't', ' ', 'g', 'i', 'v', 'e', 'n', ' ', 'a', 'n', 'd', ' ', 'f', 'a', 'm', 'i', 'l', 'y', ' ', 'n', 'a', 'm', 'e', 's', ' ', 's', 'e', 'p', 'a', 'r', 'a', 't', 'e', 'l', 'y', '.', ' ', 'U', 's', 'e', ' ', 'r', 'o', 'm', 'a', 'j', 'i', ' ', 'o', 'r', ' ', 'c', 'o', 'm', 'm', 'o', 'n', ' ', 'E', 'n', 'g', 'l', 'i', 's', 'h', ' ', 'e', 'q', 'u', 'i', 'v', 'a', 'l', 'e', 'n', 't', 's', '.', ' ', 'N', 'o', ' ', 'e', 'x', 'p', 'l', 'a', 'n', 'a', 't', 'i', 'o', 'n', 's', '.'];
        PromptsConfig {
            title_translation: string_of(&vec!['Y', 'o', 'u', ' ', 'a', 'r', 'e', ' ', 'a', ' ', 'J', 'a', 'p', 'a', 'n', 'e', 's', 'e', ' ', 't', 'o', ' ', 'E', 'n', 'g', 'l', 'i', 's', 'h', ' ', 't', 'r', 'a', 'n', 's', 'l', 'a', 't', 'o', 'r', '.', ' ', 'T', 'r', 'a', 'n', 's', 'l', 'a', 't', 'e', ' ', 't', 'h', 'e', ' ', 'f', 'o', 'l', 'l', 'o', 'w', 'i', 'n', 'g', ' ', 'J', 'a', 'p', 'a', 'n', 'e', 's', 'e', ' ', 'n', 'o', 'v', 'e', 'l', ' ', 't', 'i', 't', 'l', 'e', ' ', 't', 'o', ' ', 'E', 'n', 'g', 'l', 'i', 's', 'h', '.', ' ', 'P', 'r', 'o', 'v', 'i', 'd', 'e', ' ', 'o', 'n', 'l', 'y', ' ', 't', 'h', 'e', ' ', 't', 'r', 'a', 'n', 's', 'l', 'a', 't', 'e', 'd', ' ', 't', 'i', 't', 'l', 'e', ',', ' ', 'n', 'o', 't', 'h', 'i', 'n', 'g', ' ', 'e', 'l', 's', 'e', '.']),
            content_translation: string_of(&vec!['Y', 'o', 'u', ' ', 'a', 'r', 'e', ' ', 'a', ' ', 'J', 'a', 'p', 'a', 'n', 'e', 's', 'e', ' ', 't', 'o', ' ', 'E', 'n', 'g', 'l', 'i', 's', 'h', ' ', 't', 'r', 'a', 'n', 's', 'l', 'a', 't', 'o', 'r', ' ', 's', 'p', 'e', 'c', 'i', 'a', 'l', 'i', 'z', 'i', 'n', 'g', ' ', 'i', 'n', ' ', 'w', 'e', 'b', ' ', 'n', 'o', 'v', 'e', 'l', 's', '.', ' ', 'T', 'r', 'a', 'n', 's', 'l', 'a', 't', 'e', ' ', 't', 'h', 'e', ' ', 'f', 'o', 'l', 'l', 'o', 'w', 'i', 'n', 'g', ' ', 'J', 'a', 'p', 'a', 'n', 'e', 's', 'e', ' ', 't', 'e', 'x', 't', ' ', 't', 'o', ' ', 'n', 'a', 't', 'u', 'r', 'a', 'l', ' ', 'E', 'n', 'g', 'l', 'i', 's', 'h', ',', ' ', 'p', 'r', 'e', 's', 'e', 'r', 'v', 'i', 'n', 'g', ' ', 't', 'h', 'e', ' ', 'a', 'u', 't', 'h', 'o', 'r', '\'', 's', ' ', 's', 't', 'y', 'l', 'e', ' ', 'a', 'n', 'd', ' ', 't', 'o', 'n', 'e', '.', ' ', 'C', 'h', 'a', 'r', 'a', 'c', 't', 'e', 'r', ' ', 'n', 'a', 'm', 'e', 's', ' ', 'h', 'a', 'v', 'e', ' ', 'a', 'l', 'r', 'e', 'a', 'd', 'y', ' ', 'b', 'e', 'e', 'n', ' ', 'c', 'o', 'n', 'v', 'e', 'r', 't', 'e', 'd', ' ', 't', 'o', ' ', 'E', 'n', 'g', 'l', 'i', 's', 'h', ' ', '-', ' ', 'd', 'o', ' ', 'n', 'o', 't', ' ', 'c', 'h', 'a', 'n', 'g', 'e', ' ', 't', 'h', 'e', 'm', '.']),
            name_scout: string_of(&s),
        }
    }
}

/// Where files go.
#[derive(Clone, Debug)]
pub struct PathsConfig {
    /// The directory of translated works.
    pub output_directory: String,
    /// The directory of name stores, when not the default one.
    pub names_directory: Option<String>,
    /// The editor for reviewing a name store, when not found automatically.
    pub editor_command: Option<String>,
}

impl Default for PathsConfig {
    fn default() -> (r: PathsConfig)
        ensures
            r.output_directory@ == seq!['.'],
            r.names_directory is None,
            r.editor_command is None,
    {
        let d: Vec<char> = vec!['.'];
        assert(d@ =~= seq!['.']);
        PathsConfig { output_directory: string_of(&d), names_directory: None, editor_command: None }
    }
}

/// Which check of the settings fails first, if any: the main key must be
/// set; when name scouting is wanted, a scout service with a key must be
/// given; the chunk size must be positive.
pub enum SettingsProblem {
    MainKey,
    ScoutKey,
    ChunkSize,
}

/// The first failing check of the settings.
pub open spec fn settings_problem(
    api_key: Seq<char>,
    scout_key: Option<Seq<char>>,
    chunk_size_chars: nat,
    require_scout_api: bool,
) -> Option<SettingsProblem> {
    if !key_configured(api_key) {
        Some(SettingsProblem::MainKey)
    } else if require_scout_api && !(scout_key is Some && key_configured(scout_key->Some_0)) {
        Some(SettingsProblem::ScoutKey)
    } else if chunk_size_chars == 0 {
        Some(SettingsProblem::ChunkSize)
    } else {
        None
    }
}

/// The scout service to use: the one given, when its key is set.
pub fn select_scout_api(scout_api: Option<&ApiConfig>) -> (r: Result<&ApiConfig, ConfigError>)
    ensures
        r is Ok <==> (scout_api is Some && key_configured(scout_api->Some_0.key@)),
        r is Ok ==> r->Ok_0 == scout_api->Some_0,
        r is Err ==> r->Err_0 is MissingValue,
{
    match scout_api {
        Some(a) => {
            if a.is_configured() {
                Ok(a)
            } else {
                Err(ConfigError::MissingValue(crate::text::owned("scout_api.key")))
            }
        },
        None => Err(ConfigError::MissingValue(crate::text::owned("scout_api.key"))),
    }
}

/// Checks the settings in order: the main key, the scout key when
/// `require_scout_api`, and a positive chunk size.
pub fn validate_settings(
    api: &ApiConfig,
    scout_api: Option<&ApiConfig>,
    chunk_size_chars: usize,
    require_scout_api: bool,
) -> (r: Result<(), ConfigError>)
    ensures
        r is Ok <==> settings_problem(
            api.key@,
            match scout_api {
                Some(a) => Some(a.key@),
                None => None,
            },
            chunk_size_chars as nat,
            require_scout_api,
        ) is None,
        settings_problem(
            api.key@,
            match scout_api {
                Some(a) => Some(a.key@),
                None => None,
            },
            chunk_size_chars as nat,
            require_scout_api,
        ) is Some ==> match settings_problem(
            api.key@,
            match scout_api {
                Some(a) => Some(a.key@),
                None => None,
            },
            chunk_size_chars as nat,
            require_scout_api,
        )->Some_0 {
            SettingsProblem::ChunkSize => r is Err && r->Err_0 is InvalidValue,
            _ => r is Err && r->Err_0 is MissingValue,
        },
{
    if !api.is_configured() {
        return Err(ConfigError::MissingValue(crate::text::owned("api.key")));
    }
    if require_scout_api {
        match select_scout_api(scout_api) {
            Ok(_) => {},
            Err(e) => {
                return Err(e);
            },
        }
    }
    if chunk_size_chars == 0 {
        return Err(
            ConfigError::InvalidValue {
                key: crate::text::owned("translation.chunk_size_chars"),
                message: crate::text::owned("must be greater than 0"),
            },
        );
    }
    Ok(())
}

} // verus!
