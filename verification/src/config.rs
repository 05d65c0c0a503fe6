//! Configuration resolution. Later sources win: built-in defaults, then the
//! config file, then the environment (`DEEPSEEK_API_KEY`,
//! `DEEPSEEK_BASE_URL`, `DEEPSEEK_MODEL`).

use vstd::prelude::*;

use crate::text::{chars_of, slice_chars, string_from, string_of};

verus! {

/// The effective settings.
pub struct Config {
    pub api_key: String,
    pub base_url: String,
    pub model: String,
}

/// The settings that may appear in the config file; every one is optional.
pub struct FileConfig {
    pub api_key: Option<String>,
    pub base_url: Option<String>,
    pub model: Option<String>,
}

pub open spec fn default_base_url() -> Seq<char> {
    "https://api.deepseek.com"@
}

pub open spec fn default_model() -> Seq<char> {
    "deepseek-v4-flash"@
}

pub open spec fn missing_key_message() -> Seq<char> {
    "no API key found: set DEEPSEEK_API_KEY or `api_key` in ~/.config/flashcode/config.toml"@
}

/// An environment variable wins when it is set and not empty; otherwise the
/// file's value (even an empty one) is used.
pub open spec fn chosen(env: Option<Seq<char>>, file: Option<Seq<char>>) -> Option<Seq<char>> {
    match env {
        Some(e) => if e.len() > 0 {
            Some(e)
        } else {
            file
        },
        None => file,
    }
}

/// `s` without trailing `/` characters (`trim_end_matches('/')`).
pub open spec fn without_trailing_slashes(s: Seq<char>) -> Seq<char>
    decreases s.len(),
{
    if s.len() > 0 && s.last() == '/' {
        without_trailing_slashes(s.drop_last())
    } else {
        s
    }
}

fn pick(env: Option<String>, file: Option<String>) -> (r: Option<String>)
    ensures
        r.deep_view() == chosen(env.deep_view(), file.deep_view()),
{
    match env {
        Some(e) => if e.as_str().is_empty() {
            file
        } else {
            Some(e)
        },
        None => file,
    }
}

fn strip_trailing_slashes(s: &str) -> (r: String)
    ensures
        r@ == without_trailing_slashes(s@),
{
    let v = chars_of(s);
    let mut hi = v.len();
    assert(v@.take(hi as int) =~= v@);
    while hi > 0 && v[hi - 1] == '/'
        invariant
            hi <= v.len(),
            without_trailing_slashes(v@) == without_trailing_slashes(v@.take(hi as int)),
        decreases hi,
    {
        assert(v@.take(hi as int).drop_last() =~= v@.take(hi - 1));
        hi -= 1;
    }
    let kept = slice_chars(&v, 0, hi);
    assert(kept@ =~= v@.take(hi as int));
    string_of(&kept)
}

impl Config {
    /// Builds the effective config from the environment's values (absent
    /// when unset or not Unicode) and the config file's.
    pub fn resolve(
        env_api_key: Option<String>,
        env_base_url: Option<String>,
        env_model: Option<String>,
        file: FileConfig,
    ) -> (r: Result<Config, String>)
        ensures
            r is Ok <==> chosen(env_api_key.deep_view(), file.api_key.deep_view()) is Some,
            r matches Ok(c) ==> {
                &&& Some(c.api_key@) == chosen(env_api_key.deep_view(), file.api_key.deep_view())
                &&& c.base_url@ == without_trailing_slashes(
                    match chosen(env_base_url.deep_view(), file.base_url.deep_view()) {
                        Some(u) => u,
                        None => default_base_url(),
                    },
                )
                &&& c.model@ == (match chosen(env_model.deep_view(), file.model.deep_view()) {
                    Some(m) => m,
                    None => default_model(),
                })
            },
            r matches Err(e) ==> e@ == missing_key_message(),
    {
        let FileConfig { api_key, base_url, model } = file;
        let api_key = match pick(env_api_key, api_key) {
            Some(k) => k,
            None => {
                return Err(
                    string_from(
                        "no API key found: set DEEPSEEK_API_KEY or `api_key` in ~/.config/flashcode/config.toml",
                    ),
                )
            },
        };
        let base_url = match pick(env_base_url, base_url) {
            Some(u) => u,
            None => string_from("https://api.deepseek.com"),
        };
        let model = match pick(env_model, model) {
            Some(m) => m,
            None => string_from("deepseek-v4-flash"),
        };
        Ok(Config { api_key, base_url: strip_trailing_slashes(base_url.as_str()), model })
    }
}

/// Later sources win: a set, non-empty environment value is used over the
/// file's; otherwise the file's value is used when there is one; otherwise
/// the built-in default applies.
pub proof fn law_later_sources_win(env: Option<Seq<char>>, file: Option<Seq<char>>, default: Seq<char>)
    ensures
        env matches Some(e) && e.len() > 0 ==> chosen(env, file) == env,
        !(env matches Some(e) && e.len() > 0) ==> chosen(env, file) == file,
        (match chosen(env, file) {
            Some(v) => v,
            None => default,
        }) == (if env matches Some(e) && e.len() > 0 {
            env->0
        } else if file is Some {
            file->0
        } else {
            default
        }),
{
}

} // verus!
