//! Validation of a configuration as it was read, against what the host
//! was found to hold.

use vstd::prelude::*;
use vstd::string::StringExecFns;
use crate::text::{decimal, join2, join3, str_eq, to_decimal};
use crate::trusted::{parse_view, url_parse, url_parsed};

verus! {

/// A configuration as it was read.
#[derive(Debug)]
pub struct RawConfig {
    pub servers: Vec<RawServer>,
}

/// One server of a configuration as it was read. Paths are held as text.
#[derive(Debug)]
pub struct RawServer {
    pub listen: String,
    pub static_dir: String,
    pub cert: Option<String>,
    pub key: Option<String>,
    pub proxy: RawProxy,
}

/// The backends of a server: one URL or a list of them.
#[derive(Debug)]
pub enum BackendField {
    Single(String),
    Multiple(Vec<String>),
}

/// The proxy settings of a server as they were read.
#[derive(Debug)]
pub struct RawProxy {
    pub backend: BackendField,
    pub backend_timeout_secs: Option<u64>,
    pub rate_limit_per_minute: Option<u64>,
    pub rate_limit_burst: Option<u64>,
    pub max_request_size_bytes: Option<u64>,
    pub cache_ttl_secs: Option<u64>,
    pub cache_max_size_bytes: Option<u64>,
}

/// The TLS files of a server.
#[derive(Debug, Clone)]
pub struct TlsConfig {
    pub cert: String,
    pub key: String,
}

/// A server's configuration after validation.
#[derive(Debug, Clone)]
pub struct ConfigEntry {
    /// The listen address, as configured.
    pub listen: String,
    pub static_dir: String,
    /// The backends' URLs in serialised form.
    pub backends: Vec<String>,
    pub tls: Option<TlsConfig>,
    pub backend_timeout_secs: u64,
    pub rate_limit_per_minute: Option<u64>,
    pub rate_limit_burst: Option<u64>,
    pub max_request_size_bytes: u64,
    pub cache_ttl_secs: Option<u64>,
    pub cache_max_size_bytes: Option<u64>,
}

/// Why a configuration is not valid.
#[derive(Debug)]
pub enum ValidationError {
    InvalidListenAddress(String),
    StaticDirDoesNotExist(String),
    StaticDirNotADirectory(String),
    NoServersConfigured,
    NoBackendsConfigured(String),
    InvalidBackendUrl(String, String),
    UnsupportedBackendScheme(String),
    TlsFileNotFound(String),
    IncompleteTlsConfig(String),
}

/// What was found on the host about one configured server.
#[derive(Debug, Clone)]
pub struct ServerFacts {
    /// Why the listen address is no socket address; `None` if it is one.
    pub listen_error: Option<String>,
    pub static_dir_exists: bool,
    pub static_dir_is_dir: bool,
    pub cert_exists: bool,
    pub key_exists: bool,
}

/// Timeout for a backend, in seconds, when none is configured.
pub const DEFAULT_BACKEND_TIMEOUT_SECS: u64 = 30;

/// Largest request body, in bytes, when none is configured: 10 MiB.
pub const DEFAULT_MAX_REQUEST_SIZE_BYTES: u64 = 10485760;

/// TLS files as the contracts see them.
pub struct TlsConfigView {
    pub cert: Seq<char>,
    pub key: Seq<char>,
}

/// A validated entry as the contracts see it.
pub struct ConfigEntryView {
    pub listen: Seq<char>,
    pub static_dir: Seq<char>,
    pub backends: Seq<Seq<char>>,
    pub tls: Option<TlsConfigView>,
    pub backend_timeout_secs: u64,
    pub rate_limit_per_minute: Option<u64>,
    pub rate_limit_burst: Option<u64>,
    pub max_request_size_bytes: u64,
    pub cache_ttl_secs: Option<u64>,
    pub cache_max_size_bytes: Option<u64>,
}

/// A validation error as the contracts see it.
pub enum ValidationErrorView {
    InvalidListenAddress(Seq<char>),
    StaticDirDoesNotExist(Seq<char>),
    StaticDirNotADirectory(Seq<char>),
    NoServersConfigured,
    NoBackendsConfigured(Seq<char>),
    InvalidBackendUrl(Seq<char>, Seq<char>),
    UnsupportedBackendScheme(Seq<char>),
    TlsFileNotFound(Seq<char>),
    IncompleteTlsConfig(Seq<char>),
}

impl View for TlsConfig {
    type V = TlsConfigView;

    open spec fn view(&self) -> TlsConfigView {
        TlsConfigView { cert: self.cert@, key: self.key@ }
    }
}

/// The texts of a list of strings.
pub open spec fn texts(v: Seq<String>) -> Seq<Seq<char>> {
    v.map_values(|s: String| s@)
}

impl View for ConfigEntry {
    type V = ConfigEntryView;

    open spec fn view(&self) -> ConfigEntryView {
        ConfigEntryView {
            listen: self.listen@,
            static_dir: self.static_dir@,
            backends: texts(self.backends@),
            tls: match self.tls {
                Some(t) => Some(t@),
                None => None,
            },
            backend_timeout_secs: self.backend_timeout_secs,
            rate_limit_per_minute: self.rate_limit_per_minute,
            rate_limit_burst: self.rate_limit_burst,
            max_request_size_bytes: self.max_request_size_bytes,
            cache_ttl_secs: self.cache_ttl_secs,
            cache_max_size_bytes: self.cache_max_size_bytes,
        }
    }
}

impl View for ValidationError {
    type V = ValidationErrorView;

    open spec fn view(&self) -> ValidationErrorView {
        match self {
            ValidationError::InvalidListenAddress(e) => ValidationErrorView::InvalidListenAddress(
                e@,
            ),
            ValidationError::StaticDirDoesNotExist(p) => ValidationErrorView::StaticDirDoesNotExist(
                p@,
            ),
            ValidationError::StaticDirNotADirectory(p) => ValidationErrorView::StaticDirNotADirectory(
                p@,
            ),
            ValidationError::NoServersConfigured => ValidationErrorView::NoServersConfigured,
            ValidationError::NoBackendsConfigured(s) => ValidationErrorView::NoBackendsConfigured(
                s@,
            ),
            ValidationError::InvalidBackendUrl(u, e) => ValidationErrorView::InvalidBackendUrl(
                u@,
                e@,
            ),
            ValidationError::UnsupportedBackendScheme(s) => ValidationErrorView::UnsupportedBackendScheme(
                s@,
            ),
            ValidationError::TlsFileNotFound(p) => ValidationErrorView::TlsFileNotFound(p@),
            ValidationError::IncompleteTlsConfig(s) => ValidationErrorView::IncompleteTlsConfig(s@),
        }
    }
}

/// The name of server number `idx` in error messages.
pub open spec fn server_id(idx: nat, listen: Seq<char>) -> Seq<char> {
    "server["@ + decimal(idx) + "] "@ + listen
}

/// The backends that a configuration names, in order.
pub open spec fn backend_list(b: BackendField) -> Seq<Seq<char>> {
    match b {
        BackendField::Single(s) => seq![s@],
        BackendField::Multiple(v) => texts(v@),
    }
}

/// What becomes of one configured backend, given how it parsed: its URL
/// in serialised form if the scheme is `http` or `https`.
pub open spec fn checked_backend(
    configured: Seq<char>,
    parsed: Result<(Seq<char>, Seq<char>), Seq<char>>,
) -> Result<Seq<char>, ValidationErrorView> {
    match parsed {
        Err(message) => Err(ValidationErrorView::InvalidBackendUrl(configured, message)),
        Ok(url) => if url.1 == "http"@ || url.1 == "https"@ {
            Ok(url.0)
        } else {
            Err(ValidationErrorView::UnsupportedBackendScheme(url.1))
        },
    }
}

/// The backends' URLs, or the error of the first backend that has one.
pub open spec fn checked_backends(bs: Seq<Seq<char>>) -> Result<Seq<Seq<char>>, ValidationErrorView>
    decreases bs.len(),
{
    if bs.len() == 0 {
        Ok(Seq::empty())
    } else {
        match checked_backends(bs.drop_last()) {
            Err(e) => Err(e),
            Ok(urls) => match checked_backend(bs.last(), url_parsed(bs.last())) {
                Err(e) => Err(e),
                Ok(url) => Ok(urls.push(url)),
            },
        }
    }
}

/// The TLS files of a server: both or none must be configured, and what
/// is configured must exist.
pub open spec fn checked_tls(raw: RawServer, facts: ServerFacts, id: Seq<char>) -> Result<
    Option<TlsConfigView>,
    ValidationErrorView,
> {
    match (raw.cert, raw.key) {
        (Some(cert), Some(key)) => if !facts.cert_exists {
            Err(ValidationErrorView::TlsFileNotFound(cert@))
        } else if !facts.key_exists {
            Err(ValidationErrorView::TlsFileNotFound(key@))
        } else {
            Ok(Some(TlsConfigView { cert: cert@, key: key@ }))
        },
        (None, None) => Ok(None),
        _ => Err(ValidationErrorView::IncompleteTlsConfig(id)),
    }
}

/// A configured number that must be positive: a zero counts as not
/// configured.
pub open spec fn positive(value: Option<u64>) -> Option<u64> {
    match value {
        Some(v) => if v > 0 {
            Some(v)
        } else {
            None
        },
        None => None,
    }
}

/// A configured number that must be positive, or `default` where none is
/// configured.
pub open spec fn positive_or(value: Option<u64>, default: u64) -> u64 {
    match positive(value) {
        Some(v) => v,
        None => default,
    }
}

/// The domain of a validated entry: at least one backend, a positive
/// backend timeout, a positive largest request size, and a positive rate
/// and a positive bound on the cache where they are set.
pub open spec fn in_domain(e: ConfigEntryView) -> bool {
    &&& e.backends.len() >= 1
    &&& e.backend_timeout_secs > 0
    &&& e.max_request_size_bytes > 0
    &&& e.rate_limit_per_minute matches Some(p) ==> p > 0
    &&& e.cache_max_size_bytes matches Some(m) ==> m > 0
}

/// The validated form of server number `idx`, or the first thing wrong
/// with it: the listen address, the static directory, the TLS files, the
/// backends, in this order.
///
/// The backend timeout and the largest request size are the configured
/// ones if those are positive, and else the defaults. A rate or a bound
/// on the cache of zero counts as not configured: without a positive rate
/// nothing is limited, and without a positive bound nothing is evicted for
/// its size.
pub open spec fn checked_server(idx: nat, raw: RawServer, facts: ServerFacts) -> Result<
    ConfigEntryView,
    ValidationErrorView,
> {
    let id = server_id(idx, raw.listen@);
    let backends = backend_list(raw.proxy.backend);
    if facts.listen_error is Some {
        Err(ValidationErrorView::InvalidListenAddress(facts.listen_error->0@))
    } else if !facts.static_dir_exists {
        Err(ValidationErrorView::StaticDirDoesNotExist(raw.static_dir@))
    } else if !facts.static_dir_is_dir {
        Err(ValidationErrorView::StaticDirNotADirectory(raw.static_dir@))
    } else if checked_tls(raw, facts, id) is Err {
        Err(checked_tls(raw, facts, id)->Err_0)
    } else if backends.len() == 0 {
        Err(ValidationErrorView::NoBackendsConfigured(id))
    } else if checked_backends(backends) is Err {
        Err(checked_backends(backends)->Err_0)
    } else {
        Ok(
            ConfigEntryView {
                listen: raw.listen@,
                static_dir: raw.static_dir@,
                backends: checked_backends(backends)->Ok_0,
                tls: checked_tls(raw, facts, id)->Ok_0,
                backend_timeout_secs: positive_or(
                    raw.proxy.backend_timeout_secs,
                    DEFAULT_BACKEND_TIMEOUT_SECS,
                ),
                rate_limit_per_minute: positive(raw.proxy.rate_limit_per_minute),
                rate_limit_burst: raw.proxy.rate_limit_burst,
                max_request_size_bytes: positive_or(
                    raw.proxy.max_request_size_bytes,
                    DEFAULT_MAX_REQUEST_SIZE_BYTES,
                ),
                cache_ttl_secs: raw.proxy.cache_ttl_secs,
                cache_max_size_bytes: positive(raw.proxy.cache_max_size_bytes),
            },
        )
    }
}

/// The validated forms of the first `n` servers, or the error of the
/// first server that has one.
pub open spec fn checked_servers(servers: Seq<RawServer>, facts: Seq<ServerFacts>, n: nat) -> Result<
    Seq<ConfigEntryView>,
    ValidationErrorView,
>
    decreases n,
{
    if n == 0 {
        Ok(Seq::empty())
    } else {
        match checked_servers(servers, facts, (n - 1) as nat) {
            Err(e) => Err(e),
            Ok(done) => match checked_server((n - 1) as nat, servers[n - 1], facts[n - 1]) {
                Err(e) => Err(e),
                Ok(entry) => Ok(done.push(entry)),
            },
        }
    }
}

/// The outcome of validating a configuration against the facts found
/// about its servers: an entry for every server, or the first error.
/// A configuration without servers is an error.
pub open spec fn validated(cfg: RawConfig, facts: Seq<ServerFacts>) -> Result<
    Seq<ConfigEntryView>,
    ValidationErrorView,
> {
    if cfg.servers@.len() == 0 {
        Err(ValidationErrorView::NoServersConfigured)
    } else {
        checked_servers(cfg.servers@, facts, cfg.servers@.len())
    }
}

/// The views of a list of entries.
pub open spec fn entry_views(v: Seq<ConfigEntry>) -> Seq<ConfigEntryView> {
    v.map_values(|e: ConfigEntry| e@)
}

/// The outcome of a validation in terms of texts and numbers.
pub open spec fn outcome_view(r: Result<Vec<ConfigEntry>, ValidationError>) -> Result<
    Seq<ConfigEntryView>,
    ValidationErrorView,
> {
    match r {
        Ok(v) => Ok(entry_views(v@)),
        Err(e) => Err(e@),
    }
}

/// Decides on one configured backend, given what parsing it gave.
pub fn check_backend(configured: &str, parsed: Result<(String, String), String>) -> (r: Result<
    String,
    ValidationError,
>)
    ensures
        match r {
            Ok(url) => checked_backend(configured@, parse_view(parsed)) == Ok::<
                Seq<char>,
                ValidationErrorView,
            >(url@),
            Err(e) => checked_backend(configured@, parse_view(parsed)) == Err::<
                Seq<char>,
                ValidationErrorView,
            >(e@),
        },
{
    match parsed {
        Err(message) => Err(ValidationError::InvalidBackendUrl(String::from_str(configured), message)),
        Ok(url) => {
            if str_eq(url.1.as_str(), "http") || str_eq(url.1.as_str(), "https") {
                Ok(url.0)
            } else {
                Err(ValidationError::UnsupportedBackendScheme(url.1))
            }
        },
    }
}

fn check_backends(field: &BackendField) -> (r: Result<Vec<String>, ValidationError>)
    ensures
        match r {
            Ok(urls) => checked_backends(backend_list(*field)) == Ok::<
                Seq<Seq<char>>,
                ValidationErrorView,
            >(texts(urls@)),
            Err(e) => checked_backends(backend_list(*field)) == Err::<
                Seq<Seq<char>>,
                ValidationErrorView,
            >(e@),
        },
{
    let mut urls: Vec<String> = Vec::new();
    match field {
        BackendField::Single(s) => {
            let ghost bs = backend_list(*field);
            assert(bs.len() == 1);
            assert(bs.drop_last() =~= Seq::<Seq<char>>::empty());
            assert(bs.last() == s@);
            assert(checked_backends(bs.drop_last()) == Ok::<Seq<Seq<char>>, ValidationErrorView>(
                Seq::empty(),
            ));
            match check_backend(s.as_str(), url_parse(s.as_str())) {
                Ok(url) => {
                    urls.push(url);
                    assert(texts(urls@) =~= Seq::<Seq<char>>::empty().push(url@));
                    Ok(urls)
                },
                Err(e) => Err(e),
            }
        },
        BackendField::Multiple(v) => {
            let ghost bs = backend_list(*field);
            let mut i: usize = 0;
            assert(bs.take(0) =~= Seq::<Seq<char>>::empty());
            assert(texts(urls@) =~= Seq::<Seq<char>>::empty());
            while i < v.len()
                invariant
                    i <= v.len(),
                    bs == texts(v@),
                    bs == backend_list(*field),
                    checked_backends(bs.take(i as int)) == Ok::<
                        Seq<Seq<char>>,
                        ValidationErrorView,
                    >(texts(urls@)),
                decreases v.len() - i,
            {
                let ghost upto = bs.take(i + 1);
                assert(upto.drop_last() =~= bs.take(i as int));
                assert(upto.last() == v@[i as int]@);
                let ghost shown = texts(urls@);
                match check_backend(v[i].as_str(), url_parse(v[i].as_str())) {
                    Ok(url) => {
                        urls.push(url);
                        assert(texts(urls@) =~= shown.push(url@));
                        assert(checked_backends(upto) == Ok::<Seq<Seq<char>>, ValidationErrorView>(
                            texts(urls@),
                        ));
                    },
                    Err(e) => {
                        proof {
                            assert(checked_backends(upto) == Err::<
                                Seq<Seq<char>>,
                                ValidationErrorView,
                            >(e@));
                            lemma_backend_error_stays(bs, i + 1);
                        }
                        return Err(e);
                    },
                }
                i += 1;
            }
            assert(bs.take(v.len() as int) =~= bs);
            Ok(urls)
        },
    }
}

proof fn lemma_backend_error_stays(bs: Seq<Seq<char>>, n: int)
    requires
        0 <= n <= bs.len(),
        checked_backends(bs.take(n)) is Err,
    ensures
        checked_backends(bs) == checked_backends(bs.take(n)),
    decreases bs.len() - n,
{
    if n < bs.len() {
        assert(bs.take(n + 1).drop_last() =~= bs.take(n));
        lemma_backend_error_stays(bs, n + 1);
    } else {
        assert(bs.take(n) =~= bs);
    }
}

proof fn lemma_server_error_stays(servers: Seq<RawServer>, facts: Seq<ServerFacts>, n: nat, m: nat)
    requires
        n <= m,
        checked_servers(servers, facts, n) is Err,
    ensures
        checked_servers(servers, facts, m) == checked_servers(servers, facts, n),
    decreases m - n,
{
    if n < m {
        lemma_server_error_stays(servers, facts, n, (m - 1) as nat);
    }
}

fn make_server_id(idx: usize, listen: &str) -> (id: String)
    ensures
        id@ == server_id(idx as nat, listen@),
{
    let mut id = String::from_str("server[");
    let number = to_decimal(idx as u64);
    id.append(number.as_str());
    id.append("] ");
    id.append(listen);
    id
}

fn check_tls(raw: &RawServer, facts: &ServerFacts, idx: usize) -> (r: Result<
    Option<TlsConfig>,
    ValidationError,
>)
    ensures
        match r {
            Ok(Some(t)) => checked_tls(*raw, *facts, server_id(idx as nat, raw.listen@)) == Ok::<
                Option<TlsConfigView>,
                ValidationErrorView,
            >(Some(t@)),
            Ok(None) => checked_tls(*raw, *facts, server_id(idx as nat, raw.listen@)) == Ok::<
                Option<TlsConfigView>,
                ValidationErrorView,
            >(None),
            Err(e) => checked_tls(*raw, *facts, server_id(idx as nat, raw.listen@)) == Err::<
                Option<TlsConfigView>,
                ValidationErrorView,
            >(e@),
        },
{
    match (&raw.cert, &raw.key) {
        (Some(cert), Some(key)) => {
            if !facts.cert_exists {
                Err(ValidationError::TlsFileNotFound(cert.clone()))
            } else if !facts.key_exists {
                Err(ValidationError::TlsFileNotFound(key.clone()))
            } else {
                Ok(Some(TlsConfig { cert: cert.clone(), key: key.clone() }))
            }
        },
        (None, None) => Ok(None),
        _ => Err(ValidationError::IncompleteTlsConfig(make_server_id(idx, raw.listen.as_str()))),
    }
}

/// Takes a configured number that must be positive: a zero counts as
/// not configured.
pub fn if_positive(value: Option<u64>) -> (r: Option<u64>)
    ensures
        r == positive(value),
{
    match value {
        Some(v) => if v > 0 {
            Some(v)
        } else {
            None
        },
        None => None,
    }
}

/// Takes a configured number that must be positive, or `default` where
/// none is configured.
pub fn if_positive_or(value: Option<u64>, default: u64) -> (r: u64)
    ensures
        r == positive_or(value, default),
{
    match if_positive(value) {
        Some(v) => v,
        None => default,
    }
}

proof fn lemma_checked_backends_len(bs: Seq<Seq<char>>)
    ensures
        checked_backends(bs) matches Ok(urls) ==> urls.len() == bs.len(),
    decreases bs.len(),
{
    if bs.len() > 0 {
        lemma_checked_backends_len(bs.drop_last());
    }
}

/// A server that passes validation lies in the domain of validated
/// entries.
pub proof fn lemma_checked_server_in_domain(idx: nat, raw: RawServer, facts: ServerFacts)
    ensures
        checked_server(idx, raw, facts) matches Ok(e) ==> in_domain(e),
{
    lemma_checked_backends_len(backend_list(raw.proxy.backend));
}

proof fn lemma_checked_servers_in_domain(servers: Seq<RawServer>, facts: Seq<ServerFacts>, n: nat)
    ensures
        checked_servers(servers, facts, n) matches Ok(es) ==> es.len() == n && forall|i: int|
            0 <= i < es.len() ==> in_domain(#[trigger] es[i]),
    decreases n,
{
    if n > 0 {
        lemma_checked_servers_in_domain(servers, facts, (n - 1) as nat);
        lemma_checked_server_in_domain((n - 1) as nat, servers[n - 1], facts[n - 1]);
    }
}

/// Whatever configuration passes validation, every entry that comes out
/// lies in the domain of validated entries, and there is one entry for
/// each server.
pub proof fn lemma_validated_in_domain(cfg: RawConfig, facts: Seq<ServerFacts>)
    ensures
        validated(cfg, facts) matches Ok(es) ==> es.len() == cfg.servers@.len() && es.len() >= 1
            && forall|i: int| 0 <= i < es.len() ==> in_domain(#[trigger] es[i]),
{
    lemma_checked_servers_in_domain(cfg.servers@, facts, cfg.servers@.len());
}

/// Validates server number `idx` against the facts found about it.
pub fn validate_server(idx: usize, raw: &RawServer, facts: &ServerFacts) -> (r: Result<
    ConfigEntry,
    ValidationError,
>)
    ensures
        match r {
            Ok(entry) => checked_server(idx as nat, *raw, *facts) == Ok::<
                ConfigEntryView,
                ValidationErrorView,
            >(entry@) && in_domain(entry@),
            Err(e) => checked_server(idx as nat, *raw, *facts) == Err::<
                ConfigEntryView,
                ValidationErrorView,
            >(e@),
        },
{
    match &facts.listen_error {
        Some(e) => {
            return Err(ValidationError::InvalidListenAddress(e.clone()));
        },
        None => {},
    }
    if !facts.static_dir_exists {
        return Err(ValidationError::StaticDirDoesNotExist(raw.static_dir.clone()));
    }
    if !facts.static_dir_is_dir {
        return Err(ValidationError::StaticDirNotADirectory(raw.static_dir.clone()));
    }
    let tls = match check_tls(raw, facts, idx) {
        Ok(t) => t,
        Err(e) => {
            return Err(e);
        },
    };
    let none = match &raw.proxy.backend {
        BackendField::Single(_) => false,
        BackendField::Multiple(v) => v.len() == 0,
    };
    if none {
        return Err(ValidationError::NoBackendsConfigured(make_server_id(idx, raw.listen.as_str())));
    }
    let backends = match check_backends(&raw.proxy.backend) {
        Ok(b) => b,
        Err(e) => {
            return Err(e);
        },
    };
    proof {
        lemma_checked_server_in_domain(idx as nat, *raw, *facts);
    }
    Ok(
        ConfigEntry {
            listen: raw.listen.clone(),
            static_dir: raw.static_dir.clone(),
            backends,
            tls,
            backend_timeout_secs: if_positive_or(
                raw.proxy.backend_timeout_secs,
                DEFAULT_BACKEND_TIMEOUT_SECS,
            ),
            rate_limit_per_minute: if_positive(raw.proxy.rate_limit_per_minute),
            rate_limit_burst: raw.proxy.rate_limit_burst,
            max_request_size_bytes: if_positive_or(
                raw.proxy.max_request_size_bytes,
                DEFAULT_MAX_REQUEST_SIZE_BYTES,
            ),
            cache_ttl_secs: raw.proxy.cache_ttl_secs,
            cache_max_size_bytes: if_positive(raw.proxy.cache_max_size_bytes),
        },
    )
}

impl RawConfig {
    /// Validates the configuration. `facts` holds, for each server in
    /// order, what was found on the host about it.
    pub fn validate(self, facts: &Vec<ServerFacts>) -> (r: Result<Vec<ConfigEntry>, ValidationError>)
        requires
            facts@.len() == self.servers@.len(),
        ensures
            outcome_view(r) == validated(self, facts@),
            r matches Ok(entries) ==> entries@.len() == self.servers@.len() && forall|i: int|
                0 <= i < entries@.len() ==> in_domain(#[trigger] entries@[i]@),
    {
        if self.servers.len() == 0 {
            return Err(ValidationError::NoServersConfigured);
        }
        let mut out: Vec<ConfigEntry> = Vec::new();
        let mut i: usize = 0;
        assert(entry_views(out@) =~= Seq::<ConfigEntryView>::empty());
        while i < self.servers.len()
            invariant
                i <= self.servers@.len(),
                facts@.len() == self.servers@.len(),
                checked_servers(self.servers@, facts@, i as nat) == Ok::<
                    Seq<ConfigEntryView>,
                    ValidationErrorView,
                >(entry_views(out@)),
            decreases self.servers@.len() - i,
        {
            let ghost shown = entry_views(out@);
            match validate_server(i, &self.servers[i], &facts[i]) {
                Ok(entry) => {
                    out.push(entry);
                    assert(entry_views(out@) =~= shown.push(entry@));
                },
                Err(e) => {
                    proof {
                        lemma_server_error_stays(
                            self.servers@,
                            facts@,
                            (i + 1) as nat,
                            self.servers@.len(),
                        );
                    }
                    return Err(e);
                },
            }
            i += 1;
        }
        proof {
            lemma_checked_servers_in_domain(self.servers@, facts@, self.servers@.len());
            assert forall|k: int| 0 <= k < out@.len() implies in_domain(#[trigger] out@[k]@) by {
                assert(entry_views(out@)[k] == out@[k]@);
            }
        }
        Ok(out)
    }
}

/// The message of a validation error.
pub open spec fn message(e: ValidationErrorView) -> Seq<char> {
    match e {
        ValidationErrorView::InvalidListenAddress(e) => "invalid listen address: "@ + e,
        ValidationErrorView::StaticDirDoesNotExist(p) => "static_dir does not exist: "@ + p,
        ValidationErrorView::StaticDirNotADirectory(p) => "static_dir is not a directory: "@ + p,
        ValidationErrorView::NoServersConfigured => "no servers configured"@,
        ValidationErrorView::NoBackendsConfigured(s) => "no backends configured in [proxy] for server '"@
            + s + "'"@,
        ValidationErrorView::InvalidBackendUrl(u, e) => "invalid backend URL '"@ + u + "': "@ + e,
        ValidationErrorView::UnsupportedBackendScheme(s) => "unsupported backend scheme '"@ + s
            + "', only http/https allowed"@,
        ValidationErrorView::TlsFileNotFound(p) => "TLS file not found: "@ + p,
        ValidationErrorView::IncompleteTlsConfig(s) => "Both 'cert' and 'key' must be provided for TLS in server '"@
            + s + "'"@,
    }
}

impl ValidationError {
    /// The error as a message for the operator.
    pub fn to_string(&self) -> (r: String)
        ensures
            r@ == message(self@),
    {
        match self {
            ValidationError::InvalidListenAddress(e) => join2("invalid listen address: ", e.as_str()),
            ValidationError::StaticDirDoesNotExist(p) => join2(
                "static_dir does not exist: ",
                p.as_str(),
            ),
            ValidationError::StaticDirNotADirectory(p) => join2(
                "static_dir is not a directory: ",
                p.as_str(),
            ),
            ValidationError::NoServersConfigured => String::from_str("no servers configured"),
            ValidationError::NoBackendsConfigured(s) => join3(
                "no backends configured in [proxy] for server '",
                s.as_str(),
                "'",
            ),
            ValidationError::InvalidBackendUrl(u, e) => {
                let mut r = join3("invalid backend URL '", u.as_str(), "': ");
                r.append(e.as_str());
                r
            },
            ValidationError::UnsupportedBackendScheme(s) => join3(
                "unsupported backend scheme '",
                s.as_str(),
                "', only http/https allowed",
            ),
            ValidationError::TlsFileNotFound(p) => join2("TLS file not found: ", p.as_str()),
            ValidationError::IncompleteTlsConfig(s) => join3(
                "Both 'cert' and 'key' must be provided for TLS in server '",
                s.as_str(),
                "'",
            ),
        }
    }
}

} // verus!
