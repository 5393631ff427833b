use vstd::prelude::*;

use base64::Engine;

use crate::error::WakalyzeError;
use crate::text::{is_blank, is_blank_text, opt_string, opt_text, trim, trim_of};

verus! {

/// The server that is asked when no base URL is configured.
pub const DEFAULT_BASE_URL: &'static str = "https://wakapi.dev";

/// Stored settings: the API key, the user, and the server's base URL.
#[derive(Debug, Clone, PartialEq, Eq)]
pub struct Config {
    pub key: Option<String>,
    pub user: Option<String>,
    pub base_url: Option<String>,
}

impl Default for Config {
    fn default() -> (r: Config)
        ensures
            r.key is None,
            r.user is None,
            r.base_url is None,
    {
        Config { key: None, user: None, base_url: None }
    }
}

/// What `base64`'s standard engine makes of the UTF-8 bytes of a text.
pub uninterp spec fn base64_of(s: Seq<char>) -> Seq<char>;

/// Relies on base64's `Engine::encode` with `general_purpose::STANDARD`: the padded standard
/// encoding of the text's UTF-8 bytes; no bytes give no text.
#[verifier::external_body]
fn base64_encode(s: &str) -> (r: String)
    ensures
        r@ == base64_of(s@),
        s@.len() == 0 ==> r@.len() == 0,
{
    base64::engine::general_purpose::STANDARD.encode(s.as_bytes())
}

/// A text once trimmed, or none when that leaves nothing.
pub open spec fn non_empty_text(s: Seq<char>) -> Option<Seq<char>> {
    if is_blank(s) {
        None
    } else {
        Some(trim_of(s))
    }
}

pub open spec fn non_empty_opt(v: Option<Seq<char>>) -> Option<Seq<char>> {
    match v {
        Some(t) => non_empty_text(t),
        None => None,
    }
}

/// The first of a command-line value, a stored value and an environment value that is not
/// blank, trimmed.
pub open spec fn first_set(
    arg: Option<Seq<char>>,
    stored: Option<Seq<char>>,
    env: Option<Seq<char>>,
) -> Option<Seq<char>> {
    match non_empty_opt(arg) {
        Some(t) => Some(t),
        None => match non_empty_opt(stored) {
            Some(t) => Some(t),
            None => non_empty_opt(env),
        },
    }
}

/// A stored field: kept as it is unless it is blank.
pub open spec fn stored_field(v: Option<Seq<char>>) -> Option<Seq<char>> {
    match v {
        Some(t) => if is_blank(t) {
            None
        } else {
            Some(t)
        },
        None => None,
    }
}

/// `n` asterisks.
pub open spec fn stars(n: nat) -> Seq<char> {
    Seq::new(n, |i: int| '*')
}

/// A secret with all but its last four characters hidden; a secret of four characters or
/// fewer is hidden whole.
pub open spec fn masked(s: Seq<char>) -> Seq<char> {
    if s.len() <= 4 {
        stars(s.len())
    } else {
        stars((s.len() - 4) as nat) + s.subrange(s.len() - 4, s.len() as int)
    }
}

/// The `Authorization` header value of an API key.
pub open spec fn basic_auth(key: Seq<char>) -> Seq<char> {
    "Basic "@ + base64_of(key)
}

fn opt_str(o: &Option<String>) -> (r: Option<&str>)
    ensures
        opt_text(r) == opt_string(*o),
{
    match o {
        Some(s) => Some(s.as_str()),
        None => None,
    }
}

/// `s` trimmed, or none when that leaves nothing.
pub fn non_empty(s: &str) -> (r: Option<String>)
    ensures
        opt_string(r) == non_empty_text(s@),
{
    let t = trim(s);
    if t.as_str().unicode_len() == 0 {
        None
    } else {
        Some(t)
    }
}

fn non_empty_of(v: Option<&str>) -> (r: Option<String>)
    ensures
        opt_string(r) == non_empty_opt(opt_text(v)),
{
    match v {
        Some(s) => non_empty(s),
        None => None,
    }
}

/// The first of `arg`, `stored` and `env` that is not blank, trimmed.
pub fn resolve_field(arg: Option<&str>, stored: Option<&str>, env: Option<&str>) -> (r: Option<
    String,
>)
    ensures
        opt_string(r) == first_set(opt_text(arg), opt_text(stored), opt_text(env)),
{
    match non_empty_of(arg) {
        Some(t) => Some(t),
        None => match non_empty_of(stored) {
            Some(t) => Some(t),
            None => non_empty_of(env),
        },
    }
}

/// The user to ask for: from the command line, else the settings, else the environment.
pub fn resolve_user(args_user: Option<&str>, config: &Config, env_user: Option<&str>) -> (r: Result<
    String,
    WakalyzeError,
>)
    ensures
        match first_set(opt_text(args_user), opt_string(config.user), opt_text(env_user)) {
            Some(u) => r matches Ok(s) && s@ == u,
            None => r == Err::<String, WakalyzeError>(WakalyzeError::MissingUser),
        },
{
    match resolve_field(args_user, opt_str(&config.user), env_user) {
        Some(u) => Ok(u),
        None => Err(WakalyzeError::MissingUser),
    }
}

/// The server to ask: from the command line, else the settings, else the environment, else
/// the default.
pub fn resolve_base_url(args_url: Option<&str>, config: &Config, env_url: Option<&str>) -> (r:
    String)
    ensures
        r@ == match first_set(opt_text(args_url), opt_string(config.base_url), opt_text(env_url)) {
            Some(u) => u,
            None => DEFAULT_BASE_URL@,
        },
{
    match resolve_field(args_url, opt_str(&config.base_url), env_url) {
        Some(u) => u,
        None => DEFAULT_BASE_URL.to_owned(),
    }
}

/// The `Authorization` header value of a key already in base64: `Basic ` and the key.
pub fn basic_auth_header(encoded: &str) -> (r: String)
    ensures
        r@ == "Basic "@ + encoded@,
{
    let prefix = String::from_str("Basic ");
    prefix.concat(encoded)
}

/// The `Authorization` header value for an API key: `Basic ` and the key in base64.
pub fn encode_api_key(key: &str) -> (r: String)
    ensures
        r@ == basic_auth(key@),
{
    let encoded = base64_encode(key);
    basic_auth_header(encoded.as_str())
}

/// The `Authorization` header value: from the stored key, else from the one in the
/// environment.
pub fn resolve_basic_auth(config: &Config, env_key: Option<&str>) -> (r: Result<String, WakalyzeError>)
    ensures
        match first_set(None, opt_string(config.key), opt_text(env_key)) {
            Some(k) => r matches Ok(s) && s@ == basic_auth(k),
            None => r == Err::<String, WakalyzeError>(WakalyzeError::MissingAuth),
        },
{
    match resolve_field(None, opt_str(&config.key), env_key) {
        Some(k) => Ok(encode_api_key(k.as_str())),
        None => Err(WakalyzeError::MissingAuth),
    }
}

fn stored_of(v: Option<&str>) -> (r: Option<String>)
    ensures
        opt_string(r) == stored_field(opt_text(v)),
{
    match v {
        Some(s) => if is_blank_text(s) {
            None
        } else {
            Some(s.to_owned())
        },
        None => None,
    }
}

/// The settings made of the string fields read from the settings file; a blank field
/// counts as unset.
pub fn load_config(key: Option<&str>, user: Option<&str>, base_url: Option<&str>) -> (r: Config)
    ensures
        opt_string(r.key) == stored_field(opt_text(key)),
        opt_string(r.user) == stored_field(opt_text(user)),
        opt_string(r.base_url) == stored_field(opt_text(base_url)),
{
    Config { key: stored_of(key), user: stored_of(user), base_url: stored_of(base_url) }
}

/// A secret for display: all but its last four characters as `*`; one of four characters
/// or fewer all `*`.
pub fn mask_secret(value: &str) -> (r: String)
    ensures
        r@ == masked(value@),
{
    let n = value.unicode_len();
    let shown: usize = if n <= 4 {
        0
    } else {
        4
    };
    let hidden: usize = n - shown;
    let mut out = String::new();
    let mut i: usize = 0;
    proof {
        reveal_strlit("*");
    }
    while i < hidden
        invariant
            i <= hidden,
            out@ =~= stars(i as nat),
            "*"@ == seq!['*'],
        decreases hidden - i,
    {
        out.append("*");
        i = i + 1;
    }
    if shown > 0 {
        out.append(value.substring_char(hidden, n));
    }
    out
}

/// The message for a value and its clearing given together.
pub open spec fn conflict_message(label: Seq<char>) -> Seq<char> {
    "cannot use --"@ + label + " and --clear-"@ + label + " together"@
}

/// Applies one settings change to `target`: `clear` removes the value, `value` sets it
/// (trimmed; a blank one unsets it). Giving both is an error; giving neither changes
/// nothing. Tells whether anything was given.
pub fn update_field(target: &mut Option<String>, value: Option<&str>, clear: bool, label: &str) -> (r:
    Result<bool, WakalyzeError>)
    ensures
        clear && value is Some ==> *final(target) == *old(target) && match r {
            Err(WakalyzeError::ConflictingFlags(m)) => m@ == conflict_message(label@),
            _ => false,
        },
        clear && value is None ==> r == Ok::<bool, WakalyzeError>(true) && *final(target) is None,
        !clear && value is None ==> r == Ok::<bool, WakalyzeError>(false) && *final(target)
            == *old(target),
        !clear && value is Some ==> r == Ok::<bool, WakalyzeError>(true) && opt_string(*final(target))
            == non_empty_text(value->Some_0@),
{
    if clear && value.is_some() {
        let mut m = String::from_str("cannot use --");
        m.append(label);
        m.append(" and --clear-");
        m.append(label);
        m.append(" together");
        return Err(WakalyzeError::ConflictingFlags(m));
    }
    if clear {
        *target = None;
        return Ok(true);
    }
    match value {
        None => Ok(false),
        Some(v) => {
            *target = non_empty(v);
            Ok(true)
        },
    }
}

} // verus!
