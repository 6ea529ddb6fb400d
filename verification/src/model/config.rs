//! The proxy's configuration: its defaults, the regions it derives, and the
//! overrides it takes from environment variables.

use vstd::prelude::*;

use crate::text::{chars_of, folds_to, folds_to_exec, parse_u16, parse_u16_spec, str_eq, trim, trim_spec};

verus! {

/// The TLS implementation used for outgoing connections.
#[derive(Debug, Clone, Copy, PartialEq, Eq, Structural)]
pub enum TlsBackend {
    Rustls,
    NativeTls,
}

impl Default for TlsBackend {
    fn default() -> (res: Self)
        ensures
            res == TlsBackend::Rustls,
    {
        TlsBackend::Rustls
    }
}

/// Why a configuration value was refused.
#[derive(Debug, Clone, Copy, PartialEq, Eq, Structural)]
pub enum ValueError {
    /// Not one of `rustls` and `native-tls`.
    UnsupportedTlsBackend,
    /// Not one of `true`/`false`, `1`/`0`, `yes`/`no`, `on`/`off`.
    UnsupportedBool,
}

/// What `parse_tls_backend` gives for a value: it is trimmed, lower-cased
/// and `_` becomes `-`; then it must read `rustls` or `native-tls`.
pub open spec fn tls_backend_of(value: Seq<char>) -> Result<TlsBackend, ValueError> {
    let t = trim_spec(value);
    if folds_to(t, "rustls"@, true) {
        Ok(TlsBackend::Rustls)
    } else if folds_to(t, "native-tls"@, true) {
        Ok(TlsBackend::NativeTls)
    } else {
        Err(ValueError::UnsupportedTlsBackend)
    }
}

/// Parses a TLS backend name.
pub fn parse_tls_backend(value: &str) -> (res: Result<TlsBackend, ValueError>)
    ensures
        res == tls_backend_of(value@),
{
    let t = trim(value);
    let cs = chars_of(t.as_str());
    if folds_to_exec(&cs, "rustls", true) {
        Ok(TlsBackend::Rustls)
    } else if folds_to_exec(&cs, "native-tls", true) {
        Ok(TlsBackend::NativeTls)
    } else {
        Err(ValueError::UnsupportedTlsBackend)
    }
}

/// The load-balancing modes: `priority` and `balanced`.
pub open spec fn mode_allowed(value: Seq<char>) -> bool {
    value == "priority"@ || value == "balanced"@
}

/// Whether a value names a load-balancing mode.
pub fn is_load_balancing_mode(value: &str) -> (res: bool)
    ensures
        res == mode_allowed(value@),
{
    str_eq(value, "priority") || str_eq(value, "balanced")
}

/// What `parse_bool` gives for a value: it is trimmed and lower-cased; then
/// `1`, `true`, `yes`, `on` are true and `0`, `false`, `no`, `off` false.
pub open spec fn bool_of(value: Seq<char>) -> Result<bool, ValueError> {
    let t = trim_spec(value);
    if folds_to(t, "1"@, false) || folds_to(t, "true"@, false) || folds_to(t, "yes"@, false) || folds_to(
        t,
        "on"@,
        false,
    ) {
        Ok(true)
    } else if folds_to(t, "0"@, false) || folds_to(t, "false"@, false) || folds_to(t, "no"@, false)
        || folds_to(t, "off"@, false) {
        Ok(false)
    } else {
        Err(ValueError::UnsupportedBool)
    }
}

/// Parses a boolean setting.
pub fn parse_bool(value: &str) -> (res: Result<bool, ValueError>)
    ensures
        res == bool_of(value@),
{
    let t = trim(value);
    let cs = chars_of(t.as_str());
    if folds_to_exec(&cs, "1", false) || folds_to_exec(&cs, "true", false) || folds_to_exec(&cs, "yes", false)
        || folds_to_exec(&cs, "on", false) {
        Ok(true)
    } else if folds_to_exec(&cs, "0", false) || folds_to_exec(&cs, "false", false) || folds_to_exec(
        &cs,
        "no",
        false,
    ) || folds_to_exec(&cs, "off", false) {
        Ok(false)
    } else {
        Err(ValueError::UnsupportedBool)
    }
}


/// The name of the IDE endpoint, used when a credential names no endpoint.
pub const IDE_ENDPOINT_NAME: &'static str = "ide";

/// The address the proxy listens on by default.
pub fn default_host() -> (res: String)
    ensures
        res@ == "127.0.0.1"@,
{
    "127.0.0.1".to_owned()
}

/// The port the proxy listens on by default.
pub fn default_port() -> (res: u16)
    ensures
        res == 8080,
{
    8080
}

/// The region used by default.
pub fn default_region() -> (res: String)
    ensures
        res@ == "us-east-1"@,
{
    "us-east-1".to_owned()
}

/// The Kiro version reported by default.
pub fn default_kiro_version() -> (res: String)
    ensures
        res@ == "0.11.107"@,
{
    "0.11.107".to_owned()
}

/// One of the two system versions that may be reported by default.
pub open spec fn is_default_system_version(v: Seq<char>) -> bool {
    v == "darwin#24.6.0"@ || v == "win32#10.0.22631"@
}

/// Calls `fastrand::usize(..n)`, which panics on an empty range; it returns
/// some index below `n`, chosen at random, and the contract says no more.
#[verifier::external_body]
fn random_index(n: usize) -> (res: usize)
    requires
        n > 0,
    ensures
        res < n,
{
    fastrand::usize(..n)
}

/// The system version at index `i` of those reported by default.
pub open spec fn system_version_at(i: int) -> Seq<char> {
    if i == 0 {
        "darwin#24.6.0"@
    } else {
        "win32#10.0.22631"@
    }
}

/// The system version at index `i` (below 2) of those reported by default.
pub fn system_version_of(i: usize) -> (res: String)
    requires
        i < 2,
    ensures
        res@ == system_version_at(i as int),
{
    if i == 0 {
        "darwin#24.6.0".to_owned()
    } else {
        "win32#10.0.22631".to_owned()
    }
}

/// A system version picked at random among those reported by default: the
/// one at a random index below 2.
pub fn default_system_version() -> (res: String)
    ensures
        exists|i: int| 0 <= i < 2 && res@ == system_version_at(i),
        is_default_system_version(res@),
{
    system_version_of(random_index(2))
}

/// The Node version reported by default.
pub fn default_node_version() -> (res: String)
    ensures
        res@ == "22.22.0"@,
{
    "22.22.0".to_owned()
}

/// The authentication header type of the count_tokens API by default.
pub fn default_count_tokens_auth_type() -> (res: String)
    ensures
        res@ == "x-api-key"@,
{
    "x-api-key".to_owned()
}

/// The TLS backend used by default.
pub fn default_tls_backend() -> (res: TlsBackend)
    ensures
        res == TlsBackend::Rustls,
{
    TlsBackend::Rustls
}

/// The load balancing mode used by default.
pub fn default_load_balancing_mode() -> (res: String)
    ensures
        res@ == "priority"@,
{
    "priority".to_owned()
}

/// Whether thinking blocks are extracted from non-streaming responses by default.
pub fn default_extract_thinking() -> (res: bool)
    ensures
        res,
{
    true
}

/// The endpoint used by default.
pub fn default_endpoint() -> (res: String)
    ensures
        res@ == IDE_ENDPOINT_NAME@,
{
    IDE_ENDPOINT_NAME.to_owned()
}

/// The proxy's configuration.
#[derive(Debug, Clone)]
pub struct Config {
    pub host: String,
    pub port: u16,
    pub region: String,
    /// The region used to refresh tokens; `region` when not set.
    pub auth_region: Option<String>,
    /// The region used for API requests; `region` when not set.
    pub api_region: Option<String>,
    pub kiro_version: String,
    pub machine_id: Option<String>,
    pub api_key: Option<String>,
    pub system_version: String,
    pub node_version: String,
    pub tls_backend: TlsBackend,
    /// The address of an external count_tokens API.
    pub count_tokens_api_url: Option<String>,
    /// The key of the count_tokens API.
    pub count_tokens_api_key: Option<String>,
    /// The authentication type of the count_tokens API (`x-api-key` or `bearer`).
    pub count_tokens_auth_type: String,
    /// An HTTP or SOCKS5 proxy address.
    pub proxy_url: Option<String>,
    pub proxy_username: Option<String>,
    pub proxy_password: Option<String>,
    /// The key that enables the admin API.
    pub admin_api_key: Option<String>,
    /// `priority` or `balanced`.
    pub load_balancing_mode: String,
    /// Whether `<thinking>` tags of non-streaming responses become thinking blocks.
    pub extract_thinking: bool,
    /// The endpoint used when a credential names none.
    pub default_endpoint: String,
    /// Per-endpoint settings: the endpoint's name and its parameter object as
    /// JSON text. No name occurs twice (`endpoint_names_distinct`).
    pub endpoints: Vec<(String, String)>,
    /// The file the configuration was loaded from; not part of the JSON.
    pub config_path: Option<String>,
}

/// The characters of an optional string.
pub open spec fn opt_chars(o: Option<String>) -> Option<Seq<char>> {
    match o {
        Some(s) => Some(s@),
        None => None,
    }
}

/// A configuration as a value.
pub ghost struct ConfigView {
    pub host: Seq<char>,
    pub port: u16,
    pub region: Seq<char>,
    pub auth_region: Option<Seq<char>>,
    pub api_region: Option<Seq<char>>,
    pub kiro_version: Seq<char>,
    pub machine_id: Option<Seq<char>>,
    pub api_key: Option<Seq<char>>,
    pub system_version: Seq<char>,
    pub node_version: Seq<char>,
    pub tls_backend: TlsBackend,
    pub count_tokens_api_url: Option<Seq<char>>,
    pub count_tokens_api_key: Option<Seq<char>>,
    pub count_tokens_auth_type: Seq<char>,
    pub proxy_url: Option<Seq<char>>,
    pub proxy_username: Option<Seq<char>>,
    pub proxy_password: Option<Seq<char>>,
    pub admin_api_key: Option<Seq<char>>,
    pub load_balancing_mode: Seq<char>,
    pub extract_thinking: bool,
    pub default_endpoint: Seq<char>,
    pub endpoints: Seq<(Seq<char>, Seq<char>)>,
    pub config_path: Option<Seq<char>>,
}

impl View for Config {
    type V = ConfigView;

    open spec fn view(&self) -> ConfigView {
        ConfigView {
            host: self.host@,
            port: self.port,
            region: self.region@,
            auth_region: opt_chars(self.auth_region),
            api_region: opt_chars(self.api_region),
            kiro_version: self.kiro_version@,
            machine_id: opt_chars(self.machine_id),
            api_key: opt_chars(self.api_key),
            system_version: self.system_version@,
            node_version: self.node_version@,
            tls_backend: self.tls_backend,
            count_tokens_api_url: opt_chars(self.count_tokens_api_url),
            count_tokens_api_key: opt_chars(self.count_tokens_api_key),
            count_tokens_auth_type: self.count_tokens_auth_type@,
            proxy_url: opt_chars(self.proxy_url),
            proxy_username: opt_chars(self.proxy_username),
            proxy_password: opt_chars(self.proxy_password),
            admin_api_key: opt_chars(self.admin_api_key),
            load_balancing_mode: self.load_balancing_mode@,
            extract_thinking: self.extract_thinking,
            default_endpoint: self.default_endpoint@,
            endpoints: self.endpoints@.map_values(|e: (String, String)| (e.0@, e.1@)),
            config_path: opt_chars(self.config_path),
        }
    }
}

/// No endpoint name occurs twice among the per-endpoint settings.
pub open spec fn endpoint_names_distinct(c: ConfigView) -> bool {
    forall|i: int, j: int|
        0 <= i < j < c.endpoints.len() ==> #[trigger] c.endpoints[i].0 != #[trigger] c.endpoints[j].0
}

/// Whether a configuration holds the defaults: every optional setting is
/// unset, there are no endpoint settings and no file, and the rest hold
/// their default values.
pub open spec fn is_default_config(c: ConfigView) -> bool {
    &&& c.host == "127.0.0.1"@
    &&& c.port == 8080
    &&& c.region == "us-east-1"@
    &&& c.auth_region is None
    &&& c.api_region is None
    &&& c.kiro_version == "0.11.107"@
    &&& c.machine_id is None
    &&& c.api_key is None
    &&& is_default_system_version(c.system_version)
    &&& c.node_version == "22.22.0"@
    &&& c.tls_backend == TlsBackend::Rustls
    &&& c.count_tokens_api_url is None
    &&& c.count_tokens_api_key is None
    &&& c.count_tokens_auth_type == "x-api-key"@
    &&& c.proxy_url is None
    &&& c.proxy_username is None
    &&& c.proxy_password is None
    &&& c.admin_api_key is None
    &&& c.load_balancing_mode == "priority"@
    &&& c.extract_thinking
    &&& c.default_endpoint == IDE_ENDPOINT_NAME@
    &&& c.endpoints.len() == 0
    &&& endpoint_names_distinct(c)
    &&& c.config_path is None
}

impl Default for Config {
    fn default() -> (res: Self)
        ensures
            is_default_config(res@),
    {
        let res = Config {
            host: default_host(),
            port: default_port(),
            region: default_region(),
            auth_region: None,
            api_region: None,
            kiro_version: default_kiro_version(),
            machine_id: None,
            api_key: None,
            system_version: default_system_version(),
            node_version: default_node_version(),
            tls_backend: default_tls_backend(),
            count_tokens_api_url: None,
            count_tokens_api_key: None,
            count_tokens_auth_type: default_count_tokens_auth_type(),
            proxy_url: None,
            proxy_username: None,
            proxy_password: None,
            admin_api_key: None,
            load_balancing_mode: default_load_balancing_mode(),
            extract_thinking: default_extract_thinking(),
            default_endpoint: default_endpoint(),
            endpoints: Vec::new(),
            config_path: None,
        };
        assert(res@.endpoints.len() == 0);
        res
    }
}

impl Config {
    /// The configuration file used when none is named.
    pub fn default_config_path() -> (res: &'static str)
        ensures
            res@ == "config.json"@,
    {
        "config.json"
    }

    /// The region used to refresh tokens: `auth_region`, or `region` when unset.
    pub fn effective_auth_region(&self) -> (res: &str)
        ensures
            res@ == match self@.auth_region {
                Some(r) => r,
                None => self@.region,
            },
    {
        match &self.auth_region {
            Some(r) => r.as_str(),
            None => self.region.as_str(),
        }
    }

    /// The region used for API requests: `api_region`, or `region` when unset.
    pub fn effective_api_region(&self) -> (res: &str)
        ensures
            res@ == match self@.api_region {
                Some(r) => r,
                None => self@.region,
            },
    {
        match &self.api_region {
            Some(r) => r.as_str(),
            None => self.region.as_str(),
        }
    }

    /// The file the configuration was loaded from, if any.
    pub fn config_path(&self) -> (res: Option<&str>)
        ensures
            match res {
                Some(p) => self@.config_path == Some(p@),
                None => self@.config_path is None,
            },
    {
        match &self.config_path {
            Some(p) => Some(p.as_str()),
            None => None,
        }
    }

    /// Records the file the configuration was loaded from.
    pub fn set_config_path(&mut self, path: Option<String>)
        ensures
            final(self)@ == (ConfigView { config_path: opt_chars(path), ..old(self)@ }),
    {
        self.config_path = path;
    }
}


/// The value the environment holds for a variable: that of its first entry.
pub open spec fn env_lookup(env: Seq<(String, String)>, name: Seq<char>) -> Option<Seq<char>>
    decreases env.len(),
{
    if env.len() == 0 {
        None
    } else if env[0].0@ == name {
        Some(env[0].1@)
    } else {
        env_lookup(env.drop_first(), name)
    }
}

/// The first of `names`, from index `i` on, that the environment sets to a
/// value that is not blank: its index and its value, trimmed.
pub open spec fn env_value_from(env: Seq<(String, String)>, names: Seq<Seq<char>>, i: int) -> Option<(int, Seq<char>)>
    decreases names.len() - i,
{
    if i < 0 || i >= names.len() {
        None
    } else {
        match env_lookup(env, names[i]) {
            Some(v) => if trim_spec(v).len() > 0 {
                Some((i, trim_spec(v)))
            } else {
                env_value_from(env, names, i + 1)
            },
            None => env_value_from(env, names, i + 1),
        }
    }
}

proof fn lemma_env_value_from_range(env: Seq<(String, String)>, names: Seq<Seq<char>>, i: int)
    ensures
        env_value_from(env, names, i) matches Some((j, v)) ==> 0 <= j < names.len(),
    decreases names.len() - i,
{
    if 0 <= i < names.len() {
        lemma_env_value_from_range(env, names, i + 1);
    }
}

/// The characters of each name.
pub open spec fn names_view(names: Seq<&str>) -> Seq<Seq<char>> {
    names.map_values(|n: &str| n@)
}

/// The value the environment holds for a variable.
pub fn env_lookup_exec<'e>(env: &'e [(String, String)], name: &str) -> (res: Option<&'e String>)
    ensures
        match res {
            Some(v) => env_lookup(env@, name@) == Some(v@),
            None => env_lookup(env@, name@) is None,
        },
{
    let mut i: usize = 0;
    assert(env@.subrange(0, env@.len() as int) =~= env@);
    while i < env.len()
        invariant
            i <= env@.len(),
            env_lookup(env@, name@) == env_lookup(env@.subrange(i as int, env@.len() as int), name@),
        decreases env@.len() - i,
    {
        assert(env@.subrange(i as int, env@.len() as int).drop_first() =~= env@.subrange(i + 1, env@.len() as int));
        if str_eq(env[i].0.as_str(), name) {
            return Some(&env[i].1);
        }
        i = i + 1;
    }
    None
}

/// The environment variables that override setting `k`, in order of priority.
pub open spec fn group_names(k: int) -> Seq<Seq<char>> {
    if k == 0 {
        seq!["KIRO_RS_HOST"@, "BIND_HOST"@, "HOST"@]
    } else if k == 1 {
        seq!["KIRO_RS_PORT"@, "PORT"@]
    } else if k == 2 {
        seq!["KIRO_RS_REGION"@, "REGION"@]
    } else if k == 3 {
        seq!["KIRO_RS_AUTH_REGION"@, "AUTH_REGION"@]
    } else if k == 4 {
        seq!["KIRO_RS_API_REGION"@, "API_REGION"@]
    } else if k == 5 {
        seq!["KIRO_RS_KIRO_VERSION"@, "KIRO_VERSION"@]
    } else if k == 6 {
        seq!["KIRO_RS_MACHINE_ID"@, "MACHINE_ID"@]
    } else if k == 7 {
        seq!["KIRO_RS_API_KEY"@, "API_KEY"@]
    } else if k == 8 {
        seq!["KIRO_RS_SYSTEM_VERSION"@, "SYSTEM_VERSION"@]
    } else if k == 9 {
        seq!["KIRO_RS_NODE_VERSION"@, "NODE_VERSION"@]
    } else if k == 10 {
        seq!["KIRO_RS_TLS_BACKEND"@, "TLS_BACKEND"@]
    } else if k == 11 {
        seq!["COUNT_TOKENS_API_URL"@]
    } else if k == 12 {
        seq!["COUNT_TOKENS_API_KEY"@]
    } else if k == 13 {
        seq!["COUNT_TOKENS_AUTH_TYPE"@]
    } else if k == 14 {
        seq!["KIRO_RS_PROXY_URL"@, "PROXY_URL"@]
    } else if k == 15 {
        seq!["KIRO_RS_PROXY_USERNAME"@, "PROXY_USERNAME"@]
    } else if k == 16 {
        seq!["KIRO_RS_PROXY_PASSWORD"@, "PROXY_PASSWORD"@]
    } else if k == 17 {
        seq!["KIRO_RS_ADMIN_API_KEY"@, "ADMIN_API_KEY"@]
    } else if k == 18 {
        seq!["KIRO_RS_LOAD_BALANCING_MODE"@, "LOAD_BALANCING_MODE"@]
    } else if k == 19 {
        seq!["KIRO_RS_EXTRACT_THINKING"@, "EXTRACT_THINKING"@]
    } else if k == 20 {
        seq!["KIRO_RS_DEFAULT_ENDPOINT"@, "DEFAULT_ENDPOINT"@]
    } else {
        seq![]
    }
}

/// The first variable of group `k` that is set and not blank, and its
/// trimmed value.
pub open spec fn env_entry(env: Seq<(String, String)>, k: int) -> Option<(Seq<char>, Seq<char>)> {
    match env_value_from(env, group_names(k), 0) {
        Some((i, v)) => Some((group_names(k)[i], v)),
        None => None,
    }
}

/// The trimmed value that overrides setting `k`, if any.
pub open spec fn env_pick(env: Seq<(String, String)>, k: int) -> Option<Seq<char>> {
    match env_entry(env, k) {
        Some((_, v)) => Some(v),
        None => None,
    }
}

/// Setting `k` after its override, for a string setting.
pub open spec fn pick(env: Seq<(String, String)>, k: int, cur: Seq<char>) -> Seq<char> {
    match env_pick(env, k) {
        Some(v) => v,
        None => cur,
    }
}

/// Setting `k` after its override, for an optional string setting.
pub open spec fn pick_opt(env: Seq<(String, String)>, k: int, cur: Option<Seq<char>>) -> Option<Seq<char>> {
    match env_pick(env, k) {
        Some(v) => Some(v),
        None => cur,
    }
}

/// Finds the first of `names` that the environment sets to a value that is
/// not blank, and gives the name and the value, trimmed.
pub fn env_value<'a>(env: &[(String, String)], names: &[&'a str]) -> (res: Option<(&'a str, String)>)
    ensures
        match env_value_from(env@, names_view(names@), 0) {
            Some((i, v)) => res matches Some((n, t)) && n@ == names@[i]@ && t@ == v,
            None => res is None,
        },
{
    let ghost nv = names_view(names@);
    let mut i: usize = 0;
    while i < names.len()
        invariant
            nv == names_view(names@),
            i <= names@.len(),
            env_value_from(env@, nv, 0) == env_value_from(env@, nv, i as int),
        decreases names@.len() - i,
    {
        assert(nv[i as int] == names@[i as int]@);
        match env_lookup_exec(env, names[i]) {
            Some(v) => {
                let t = trim(v.as_str());
                if !t.as_str().is_empty() {
                    proof {
                        lemma_env_value_from_range(env@, nv, 0);
                    }
                    return Some((names[i], t));
                }
            },
            None => {},
        }
        i = i + 1;
    }
    None
}

/// `c` with the override of setting `k` applied.
pub open spec fn apply_one(c: ConfigView, env: Seq<(String, String)>, k: int) -> ConfigView {
    if k == 0 {
        ConfigView { host: pick(env, 0, c.host), ..c }
    } else if k == 1 {
        ConfigView { port: match env_pick(env, 1) {
                Some(v) => match parse_u16_spec(v) {
                    Some(p) => p,
                    None => c.port,
                },
                None => c.port,
            }, ..c }
    } else if k == 2 {
        ConfigView { region: pick(env, 2, c.region), ..c }
    } else if k == 3 {
        ConfigView { auth_region: pick_opt(env, 3, c.auth_region), ..c }
    } else if k == 4 {
        ConfigView { api_region: pick_opt(env, 4, c.api_region), ..c }
    } else if k == 5 {
        ConfigView { kiro_version: pick(env, 5, c.kiro_version), ..c }
    } else if k == 6 {
        ConfigView { machine_id: pick_opt(env, 6, c.machine_id), ..c }
    } else if k == 7 {
        ConfigView { api_key: pick_opt(env, 7, c.api_key), ..c }
    } else if k == 8 {
        ConfigView { system_version: pick(env, 8, c.system_version), ..c }
    } else if k == 9 {
        ConfigView { node_version: pick(env, 9, c.node_version), ..c }
    } else if k == 10 {
        ConfigView { tls_backend: match env_pick(env, 10) {
                Some(v) => match tls_backend_of(v) {
                    Ok(b) => b,
                    Err(_) => c.tls_backend,
                },
                None => c.tls_backend,
            }, ..c }
    } else if k == 11 {
        ConfigView { count_tokens_api_url: pick_opt(env, 11, c.count_tokens_api_url), ..c }
    } else if k == 12 {
        ConfigView { count_tokens_api_key: pick_opt(env, 12, c.count_tokens_api_key), ..c }
    } else if k == 13 {
        ConfigView { count_tokens_auth_type: pick(env, 13, c.count_tokens_auth_type), ..c }
    } else if k == 14 {
        ConfigView { proxy_url: pick_opt(env, 14, c.proxy_url), ..c }
    } else if k == 15 {
        ConfigView { proxy_username: pick_opt(env, 15, c.proxy_username), ..c }
    } else if k == 16 {
        ConfigView { proxy_password: pick_opt(env, 16, c.proxy_password), ..c }
    } else if k == 17 {
        ConfigView { admin_api_key: pick_opt(env, 17, c.admin_api_key), ..c }
    } else if k == 18 {
        ConfigView { load_balancing_mode: match env_pick(env, 18) {
                Some(v) => if mode_allowed(v) {
                    v
                } else {
                    c.load_balancing_mode
                },
                None => c.load_balancing_mode,
            }, ..c }
    } else if k == 19 {
        ConfigView { extract_thinking: match env_pick(env, 19) {
                Some(v) => match bool_of(v) {
                    Ok(b) => b,
                    Err(_) => c.extract_thinking,
                },
                None => c.extract_thinking,
            }, ..c }
    } else if k == 20 {
        ConfigView { default_endpoint: pick(env, 20, c.default_endpoint), ..c }
    } else {
        c
    }
}

/// `c` with the overrides of the first `stage` settings applied, in order.
pub open spec fn overridden(c: ConfigView, env: Seq<(String, String)>, stage: int) -> ConfigView
    decreases stage,
{
    if stage <= 0 {
        c
    } else {
        apply_one(overridden(c, env, stage - 1), env, stage - 1)
    }
}

spec fn overridden_fields(c: ConfigView, env: Seq<(String, String)>, stage: int) -> ConfigView {
    ConfigView {
        host: if stage > 0 {
            pick(env, 0, c.host)
        } else {
            c.host
        },
        port: if stage > 1 {
            match env_pick(env, 1) {
                Some(v) => match parse_u16_spec(v) {
                    Some(p) => p,
                    None => c.port,
                },
                None => c.port,
            }
        } else {
            c.port
        },
        region: if stage > 2 {
            pick(env, 2, c.region)
        } else {
            c.region
        },
        auth_region: if stage > 3 {
            pick_opt(env, 3, c.auth_region)
        } else {
            c.auth_region
        },
        api_region: if stage > 4 {
            pick_opt(env, 4, c.api_region)
        } else {
            c.api_region
        },
        kiro_version: if stage > 5 {
            pick(env, 5, c.kiro_version)
        } else {
            c.kiro_version
        },
        machine_id: if stage > 6 {
            pick_opt(env, 6, c.machine_id)
        } else {
            c.machine_id
        },
        api_key: if stage > 7 {
            pick_opt(env, 7, c.api_key)
        } else {
            c.api_key
        },
        system_version: if stage > 8 {
            pick(env, 8, c.system_version)
        } else {
            c.system_version
        },
        node_version: if stage > 9 {
            pick(env, 9, c.node_version)
        } else {
            c.node_version
        },
        tls_backend: if stage > 10 {
            match env_pick(env, 10) {
                Some(v) => match tls_backend_of(v) {
                    Ok(b) => b,
                    Err(_) => c.tls_backend,
                },
                None => c.tls_backend,
            }
        } else {
            c.tls_backend
        },
        count_tokens_api_url: if stage > 11 {
            pick_opt(env, 11, c.count_tokens_api_url)
        } else {
            c.count_tokens_api_url
        },
        count_tokens_api_key: if stage > 12 {
            pick_opt(env, 12, c.count_tokens_api_key)
        } else {
            c.count_tokens_api_key
        },
        count_tokens_auth_type: if stage > 13 {
            pick(env, 13, c.count_tokens_auth_type)
        } else {
            c.count_tokens_auth_type
        },
        proxy_url: if stage > 14 {
            pick_opt(env, 14, c.proxy_url)
        } else {
            c.proxy_url
        },
        proxy_username: if stage > 15 {
            pick_opt(env, 15, c.proxy_username)
        } else {
            c.proxy_username
        },
        proxy_password: if stage > 16 {
            pick_opt(env, 16, c.proxy_password)
        } else {
            c.proxy_password
        },
        admin_api_key: if stage > 17 {
            pick_opt(env, 17, c.admin_api_key)
        } else {
            c.admin_api_key
        },
        load_balancing_mode: if stage > 18 {
            match env_pick(env, 18) {
                Some(v) => if mode_allowed(v) {
                    v
                } else {
                    c.load_balancing_mode
                },
                None => c.load_balancing_mode,
            }
        } else {
            c.load_balancing_mode
        },
        extract_thinking: if stage > 19 {
            match env_pick(env, 19) {
                Some(v) => match bool_of(v) {
                    Ok(b) => b,
                    Err(_) => c.extract_thinking,
                },
                None => c.extract_thinking,
            }
        } else {
            c.extract_thinking
        },
        default_endpoint: if stage > 20 {
            pick(env, 20, c.default_endpoint)
        } else {
            c.default_endpoint
        },
        endpoints: c.endpoints,
        config_path: c.config_path,
    }
}

proof fn lemma_overridden_fields(c: ConfigView, env: Seq<(String, String)>, stage: int)
    requires
        0 <= stage <= 21,
    ensures
        overridden(c, env, stage) == overridden_fields(c, env, stage),
    decreases stage,
{
    if stage > 0 {
        lemma_overridden_fields(c, env, stage - 1);
    }
}

/// Applying the environment overrides a second time changes nothing, also
/// where the walk stopped early at setting `stage`: which error stops it
/// depends on the environment alone, so a second run stops at the same
/// setting with the same error, and the state it leaves is the same.
pub proof fn law_env_overrides_idempotent(c: ConfigView, env: Seq<(String, String)>, stage: int)
    requires
        0 <= stage <= 21,
    ensures
        overridden(overridden(c, env, stage), env, stage) == overridden(c, env, stage),
{
    lemma_overridden_fields(c, env, stage);
    lemma_overridden_fields(overridden(c, env, stage), env, stage);
}

/// The overrides leave the endpoint settings and the file name as they were.
pub proof fn law_env_overrides_keep_endpoints(c: ConfigView, env: Seq<(String, String)>, stage: int)
    requires
        0 <= stage <= 21,
    ensures
        overridden(c, env, stage).endpoints == c.endpoints,
        endpoint_names_distinct(c) ==> endpoint_names_distinct(overridden(c, env, stage)),
        overridden(c, env, stage).config_path == c.config_path,
{
    lemma_overridden_fields(c, env, stage);
}

/// An environment variable that holds a value its setting refuses.
#[derive(Debug, Clone)]
pub enum ConfigError {
    /// Not a port number.
    InvalidPort { name: String, value: String },
    /// Not a TLS backend.
    InvalidTlsBackend { name: String, value: String },
    /// Not a boolean.
    InvalidBool { name: String, value: String },
    /// Not a load-balancing mode.
    InvalidLoadBalancingMode { name: String, value: String },
}

/// The load-balancing override is present and names no mode.
pub open spec fn mode_fails(env: Seq<(String, String)>) -> bool {
    match env_pick(env, 18) {
        Some(v) => !mode_allowed(v),
        None => false,
    }
}

/// The port override is present and is not a port number.
pub open spec fn port_fails(env: Seq<(String, String)>) -> bool {
    match env_pick(env, 1) {
        Some(v) => parse_u16_spec(v) is None,
        None => false,
    }
}

/// The TLS backend override is present and names no backend.
pub open spec fn tls_fails(env: Seq<(String, String)>) -> bool {
    match env_pick(env, 10) {
        Some(v) => tls_backend_of(v) is Err,
        None => false,
    }
}

/// The thinking-extraction override is present and is not a boolean.
pub open spec fn bool_fails(env: Seq<(String, String)>) -> bool {
    match env_pick(env, 19) {
        Some(v) => bool_of(v) is Err,
        None => false,
    }
}

/// The name and value of the variable that overrides setting `k`.
pub open spec fn failing_entry(env: Seq<(String, String)>, k: int, name: String, value: String) -> bool {
    env_entry(env, k) == Some((name@, value@))
}

/// The variable that overrides setting `k` (below 21): the first of its
/// variables that is set and not blank, and its value, trimmed.
fn env_entry_exec(env: &[(String, String)], k: usize) -> (res: Option<(&'static str, String)>)
    requires
        k < 21,
    ensures
        match env_entry(env@, k as int) {
            Some((n, v)) => res matches Some((a, t)) && a@ == n && t@ == v,
            None => res is None,
        },
{
    let names: &[&'static str] = if k == 0 {
        &["KIRO_RS_HOST", "BIND_HOST", "HOST"]
    } else if k == 1 {
        &["KIRO_RS_PORT", "PORT"]
    } else if k == 2 {
        &["KIRO_RS_REGION", "REGION"]
    } else if k == 3 {
        &["KIRO_RS_AUTH_REGION", "AUTH_REGION"]
    } else if k == 4 {
        &["KIRO_RS_API_REGION", "API_REGION"]
    } else if k == 5 {
        &["KIRO_RS_KIRO_VERSION", "KIRO_VERSION"]
    } else if k == 6 {
        &["KIRO_RS_MACHINE_ID", "MACHINE_ID"]
    } else if k == 7 {
        &["KIRO_RS_API_KEY", "API_KEY"]
    } else if k == 8 {
        &["KIRO_RS_SYSTEM_VERSION", "SYSTEM_VERSION"]
    } else if k == 9 {
        &["KIRO_RS_NODE_VERSION", "NODE_VERSION"]
    } else if k == 10 {
        &["KIRO_RS_TLS_BACKEND", "TLS_BACKEND"]
    } else if k == 11 {
        &["COUNT_TOKENS_API_URL"]
    } else if k == 12 {
        &["COUNT_TOKENS_API_KEY"]
    } else if k == 13 {
        &["COUNT_TOKENS_AUTH_TYPE"]
    } else if k == 14 {
        &["KIRO_RS_PROXY_URL", "PROXY_URL"]
    } else if k == 15 {
        &["KIRO_RS_PROXY_USERNAME", "PROXY_USERNAME"]
    } else if k == 16 {
        &["KIRO_RS_PROXY_PASSWORD", "PROXY_PASSWORD"]
    } else if k == 17 {
        &["KIRO_RS_ADMIN_API_KEY", "ADMIN_API_KEY"]
    } else if k == 18 {
        &["KIRO_RS_LOAD_BALANCING_MODE", "LOAD_BALANCING_MODE"]
    } else if k == 19 {
        &["KIRO_RS_EXTRACT_THINKING", "EXTRACT_THINKING"]
    } else {
        &["KIRO_RS_DEFAULT_ENDPOINT", "DEFAULT_ENDPOINT"]
    };
    assert(names_view(names@) =~= group_names(k as int));
    assert(forall|j: int| 0 <= j < names@.len() ==> group_names(k as int)[j] == #[trigger] names@[j]@);
    proof {
        lemma_env_value_from_range(env@, names_view(names@), 0);
    }
    env_value(env, names)
}

/// Applies the override of the string setting `k` to `cur`.
fn pick_into(env: &[(String, String)], k: usize, cur: &mut String)
    requires
        k < 21,
    ensures
        final(cur)@ == pick(env@, k as int, old(cur)@),
{
    if let Some((_, value)) = env_entry_exec(env, k) {
        *cur = value;
    }
}

/// Applies the override of the optional string setting `k` to `cur`.
fn pick_opt_into(env: &[(String, String)], k: usize, cur: &mut Option<String>)
    requires
        k < 21,
    ensures
        opt_chars(*final(cur)) == pick_opt(env@, k as int, opt_chars(*old(cur))),
{
    if let Some((_, value)) = env_entry_exec(env, k) {
        *cur = Some(value);
    }
}

impl Config {
    /// Applies the overrides that the environment `env` (name and value
    /// pairs) holds, setting by setting in a fixed order. Each setting takes
    /// the trimmed value of the first of its variables that is set and not
    /// blank. A port, TLS backend, load-balancing mode or boolean that does
    /// not parse stops the walk with an error; the settings before it stay
    /// overridden. A load-balancing mode is `priority` or `balanced`: a
    /// configuration that held one of them still does afterwards.
    #[verifier::rlimit(80)]
    pub fn apply_env_overrides(&mut self, env: &[(String, String)]) -> (res: Result<(), ConfigError>)
        ensures
            mode_allowed(old(self)@.load_balancing_mode) ==> mode_allowed(final(self)@.load_balancing_mode),
            match res {
                Ok(()) => {
                    &&& !port_fails(env@) && !tls_fails(env@) && !mode_fails(env@) && !bool_fails(env@)
                    &&& final(self)@ == overridden(old(self)@, env@, 21)
                },
                Err(ConfigError::InvalidPort { name, value }) => {
                    &&& port_fails(env@)
                    &&& failing_entry(env@, 1, name, value)
                    &&& final(self)@ == overridden(old(self)@, env@, 1)
                },
                Err(ConfigError::InvalidTlsBackend { name, value }) => {
                    &&& !port_fails(env@) && tls_fails(env@)
                    &&& failing_entry(env@, 10, name, value)
                    &&& final(self)@ == overridden(old(self)@, env@, 10)
                },
                Err(ConfigError::InvalidLoadBalancingMode { name, value }) => {
                    &&& !port_fails(env@) && !tls_fails(env@) && mode_fails(env@)
                    &&& failing_entry(env@, 18, name, value)
                    &&& final(self)@ == overridden(old(self)@, env@, 18)
                },
                Err(ConfigError::InvalidBool { name, value }) => {
                    &&& !port_fails(env@) && !tls_fails(env@) && !mode_fails(env@) && bool_fails(env@)
                    &&& failing_entry(env@, 19, name, value)
                    &&& final(self)@ == overridden(old(self)@, env@, 19)
                },
            },
    {
        assert(self@ == overridden(old(self)@, env@, 0));
        pick_into(env, 0, &mut self.host);
        assert(self@ == overridden(old(self)@, env@, 1));
        proof {
            lemma_overridden_fields(old(self)@, env@, 1);
        }
        match env_entry_exec(env, 1) {
            Some((name, value)) => match parse_u16(value.as_str()) {
                Some(p) => {
                    self.port = p;
                },
                None => {
                    return Err(ConfigError::InvalidPort { name: name.to_owned(), value });
                },
            },
            None => {},
        }
        assert(self@ == overridden(old(self)@, env@, 2));
        pick_into(env, 2, &mut self.region);
        assert(self@ == overridden(old(self)@, env@, 3));
        pick_opt_into(env, 3, &mut self.auth_region);
        assert(self@ == overridden(old(self)@, env@, 4));
        pick_opt_into(env, 4, &mut self.api_region);
        assert(self@ == overridden(old(self)@, env@, 5));
        pick_into(env, 5, &mut self.kiro_version);
        assert(self@ == overridden(old(self)@, env@, 6));
        pick_opt_into(env, 6, &mut self.machine_id);
        assert(self@ == overridden(old(self)@, env@, 7));
        pick_opt_into(env, 7, &mut self.api_key);
        assert(self@ == overridden(old(self)@, env@, 8));
        pick_into(env, 8, &mut self.system_version);
        assert(self@ == overridden(old(self)@, env@, 9));
        pick_into(env, 9, &mut self.node_version);
        assert(self@ == overridden(old(self)@, env@, 10));
        proof {
            lemma_overridden_fields(old(self)@, env@, 10);
        }
        match env_entry_exec(env, 10) {
            Some((name, value)) => match parse_tls_backend(value.as_str()) {
                Ok(b) => {
                    self.tls_backend = b;
                },
                Err(_) => {
                    return Err(ConfigError::InvalidTlsBackend { name: name.to_owned(), value });
                },
            },
            None => {},
        }
        assert(self@ == overridden(old(self)@, env@, 11));
        pick_opt_into(env, 11, &mut self.count_tokens_api_url);
        assert(self@ == overridden(old(self)@, env@, 12));
        pick_opt_into(env, 12, &mut self.count_tokens_api_key);
        assert(self@ == overridden(old(self)@, env@, 13));
        pick_into(env, 13, &mut self.count_tokens_auth_type);
        assert(self@ == overridden(old(self)@, env@, 14));
        pick_opt_into(env, 14, &mut self.proxy_url);
        assert(self@ == overridden(old(self)@, env@, 15));
        pick_opt_into(env, 15, &mut self.proxy_username);
        assert(self@ == overridden(old(self)@, env@, 16));
        pick_opt_into(env, 16, &mut self.proxy_password);
        assert(self@ == overridden(old(self)@, env@, 17));
        pick_opt_into(env, 17, &mut self.admin_api_key);
        assert(self@ == overridden(old(self)@, env@, 18));
        proof {
            lemma_overridden_fields(old(self)@, env@, 18);
        }
        match env_entry_exec(env, 18) {
            Some((name, value)) => if is_load_balancing_mode(value.as_str()) {
                self.load_balancing_mode = value;
            } else {
                return Err(ConfigError::InvalidLoadBalancingMode { name: name.to_owned(), value });
            },
            None => {},
        }
        assert(self@ == overridden(old(self)@, env@, 19));
        proof {
            lemma_overridden_fields(old(self)@, env@, 19);
        }
        match env_entry_exec(env, 19) {
            Some((name, value)) => match parse_bool(value.as_str()) {
                Ok(b) => {
                    self.extract_thinking = b;
                },
                Err(_) => {
                    return Err(ConfigError::InvalidBool { name: name.to_owned(), value });
                },
            },
            None => {},
        }
        assert(self@ == overridden(old(self)@, env@, 20));
        pick_into(env, 20, &mut self.default_endpoint);
        assert(self@ == overridden(old(self)@, env@, 21));
        proof {
            lemma_overridden_fields(old(self)@, env@, 21);
        }
        Ok(())
    }
}

/// The trimmed value of the first of `names` that the environment sets and
/// that is not blank.
pub open spec fn first_value(env: Seq<(String, String)>, names: Seq<Seq<char>>) -> Option<Seq<char>> {
    match env_value_from(env, names, 0) {
        Some((_, v)) => Some(v),
        None => None,
    }
}

/// A setting given a value, or kept.
pub open spec fn set_or_keep(value: Option<Seq<char>>, cur: Seq<char>) -> Seq<char> {
    match value {
        Some(v) => v,
        None => cur,
    }
}

/// An optional setting given a value, or kept.
pub open spec fn set_opt_or_keep(value: Option<Seq<char>>, cur: Option<Seq<char>>) -> Option<Seq<char>> {
    match value {
        Some(v) => Some(v),
        None => cur,
    }
}

/// Each setting reads its own variables and no other: after the overrides
/// (as a successful run leaves them), a setting holds the trimmed value of
/// the first of its variables that is set and not blank, in the order
/// listed (a port, TLS backend, load-balancing mode or boolean only where it
/// parses), and otherwise keeps its value. So `api_region` follows
/// `KIRO_RS_API_REGION` / `API_REGION` and `auth_region` follows
/// `KIRO_RS_AUTH_REGION` / `AUTH_REGION` alone.
#[verifier::rlimit(80)]
pub proof fn law_each_setting_reads_its_own_variables(c: ConfigView, env: Seq<(String, String)>)
    ensures
        ({
            let r = overridden(c, env, 21);
            &&& r.host == set_or_keep(first_value(env, seq!["KIRO_RS_HOST"@, "BIND_HOST"@, "HOST"@]), c.host)
            &&& r.region == set_or_keep(first_value(env, seq!["KIRO_RS_REGION"@, "REGION"@]), c.region)
            &&& r.auth_region == set_opt_or_keep(first_value(env, seq!["KIRO_RS_AUTH_REGION"@, "AUTH_REGION"@]), c.auth_region)
            &&& r.api_region == set_opt_or_keep(first_value(env, seq!["KIRO_RS_API_REGION"@, "API_REGION"@]), c.api_region)
            &&& r.kiro_version == set_or_keep(first_value(env, seq!["KIRO_RS_KIRO_VERSION"@, "KIRO_VERSION"@]), c.kiro_version)
            &&& r.machine_id == set_opt_or_keep(first_value(env, seq!["KIRO_RS_MACHINE_ID"@, "MACHINE_ID"@]), c.machine_id)
            &&& r.api_key == set_opt_or_keep(first_value(env, seq!["KIRO_RS_API_KEY"@, "API_KEY"@]), c.api_key)
            &&& r.system_version == set_or_keep(first_value(env, seq!["KIRO_RS_SYSTEM_VERSION"@, "SYSTEM_VERSION"@]), c.system_version)
            &&& r.node_version == set_or_keep(first_value(env, seq!["KIRO_RS_NODE_VERSION"@, "NODE_VERSION"@]), c.node_version)
            &&& r.count_tokens_api_url == set_opt_or_keep(first_value(env, seq!["COUNT_TOKENS_API_URL"@]), c.count_tokens_api_url)
            &&& r.count_tokens_api_key == set_opt_or_keep(first_value(env, seq!["COUNT_TOKENS_API_KEY"@]), c.count_tokens_api_key)
            &&& r.count_tokens_auth_type == set_or_keep(first_value(env, seq!["COUNT_TOKENS_AUTH_TYPE"@]), c.count_tokens_auth_type)
            &&& r.proxy_url == set_opt_or_keep(first_value(env, seq!["KIRO_RS_PROXY_URL"@, "PROXY_URL"@]), c.proxy_url)
            &&& r.proxy_username == set_opt_or_keep(first_value(env, seq!["KIRO_RS_PROXY_USERNAME"@, "PROXY_USERNAME"@]), c.proxy_username)
            &&& r.proxy_password == set_opt_or_keep(first_value(env, seq!["KIRO_RS_PROXY_PASSWORD"@, "PROXY_PASSWORD"@]), c.proxy_password)
            &&& r.admin_api_key == set_opt_or_keep(first_value(env, seq!["KIRO_RS_ADMIN_API_KEY"@, "ADMIN_API_KEY"@]), c.admin_api_key)
            &&& r.default_endpoint == set_or_keep(first_value(env, seq!["KIRO_RS_DEFAULT_ENDPOINT"@, "DEFAULT_ENDPOINT"@]), c.default_endpoint)
            &&& r.port == match first_value(env, seq!["KIRO_RS_PORT"@, "PORT"@]) {
                Some(v) => match parse_u16_spec(v) {
                    Some(p) => p,
                    None => c.port,
                },
                None => c.port,
            }
            &&& r.tls_backend == match first_value(env, seq!["KIRO_RS_TLS_BACKEND"@, "TLS_BACKEND"@]) {
                Some(v) => match tls_backend_of(v) {
                    Ok(b) => b,
                    Err(_) => c.tls_backend,
                },
                None => c.tls_backend,
            }
            &&& r.load_balancing_mode == match first_value(env, seq!["KIRO_RS_LOAD_BALANCING_MODE"@, "LOAD_BALANCING_MODE"@]) {
                Some(v) => if v == "priority"@ || v == "balanced"@ {
                    v
                } else {
                    c.load_balancing_mode
                },
                None => c.load_balancing_mode,
            }
            &&& r.extract_thinking == match first_value(env, seq!["KIRO_RS_EXTRACT_THINKING"@, "EXTRACT_THINKING"@]) {
                Some(v) => match bool_of(v) {
                    Ok(b) => b,
                    Err(_) => c.extract_thinking,
                },
                None => c.extract_thinking,
            }
        }),
{
    lemma_overridden_fields(c, env, 21);
}

} // verus!
