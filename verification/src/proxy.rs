//! The request pipeline of the proxy, as a machine that decides and leaves
//! the transport to its caller.
//!
//! A request enters through `proxy_handler`, which answers it
//! or names the upstream request to send. What the upstream did comes
//! back through `AppState::relay`, and a body that was buffered for the
//! cache through `AppState::finish`.

use vstd::prelude::*;
use vstd::string::StringExecFns;
use crate::backend::{
    advance, counter_after, lemma_round_robin_fair, pick, share, BackendCursor,
};
use crate::cache::{evicted_from, CacheEntry, CacheView, EntryView, ResponseCache};
use crate::cache_control::{cache_control_of, parse_cache_control_bytes, resolve_ttl, ttl_of};
use crate::config::{
    if_positive, if_positive_or, in_domain, positive, positive_or, ConfigEntry,
    DEFAULT_BACKEND_TIMEOUT_SECS,
};
use crate::headers::{
    first_named, forwarded, get_header, hop_by_hop, lemma_forwarded_headers_clean,
    lemma_mirrored_headers_clean, mirrored, raw_view, sanitize_and_forward_headers, sensitive,
    strip_hop_by_hop, text_view,
};
use crate::ip::{ip_of, parse_ip};
use crate::rate::{ClientIp, RateLimiter, RateLimiterView};
use crate::text::{chars_of, find_char, index_of, str_eq, trim_bounds, trimmed, Strip};
use crate::trusted::{
    header_name_ok, header_value_ok, is_header_name_bytes, is_header_value_bytes, str_from_utf8,
    url_join, url_joined,
};
use vstd::string::StrSliceExecFns;
use vstd::string::StringSliceAdditionalSpecFns;
use vstd::utf8::{decode_utf8, encode_utf8, valid_utf8};

verus! {

/// What the proxy reads of a client's request.
#[derive(Debug)]
pub struct Inbound {
    pub method: String,
    /// The request target as it was received.
    pub uri: String,
    /// Path and query of the target, if it has any.
    pub path_and_query: Option<String>,
    pub headers: Vec<(String, Vec<u8>)>,
    /// The address of the peer, if the listener knows it.
    pub peer: Option<ClientIp>,
}

/// A request as the contracts see it.
pub struct InboundView {
    pub method: Seq<char>,
    pub uri: Seq<char>,
    pub path_and_query: Option<Seq<char>>,
    pub headers: Seq<(Seq<char>, Seq<u8>)>,
    pub peer: Option<ClientIp>,
}

impl View for Inbound {
    type V = InboundView;

    open spec fn view(&self) -> InboundView {
        InboundView {
            method: self.method@,
            uri: self.uri@,
            path_and_query: match self.path_and_query {
                Some(p) => Some(p@),
                None => None,
            },
            headers: raw_view(self.headers@),
            peer: self.peer,
        }
    }
}

/// What becomes of a request before any upstream is contacted.
#[derive(Debug)]
#[allow(inconsistent_fields)]
pub enum Decision {
    /// Answer with a status and nothing else.
    Reject { status: u16 },
    /// Answer from the cache.
    Cached { status: u16, headers: Vec<(String, Vec<u8>)>, body: Vec<u8> },
    /// Send the request to backend number `backend` at `url`, with
    /// `headers` and the client's body. `cache_key` names the response.
    Forward { backend: usize, url: String, headers: Vec<(String, String)>, cache_key: String },
}

/// A decision as the contracts see it.
#[allow(inconsistent_fields)]
pub enum DecisionView {
    Reject { status: u16 },
    Cached { status: u16, headers: Seq<(Seq<char>, Seq<u8>)>, body: Seq<u8> },
    Forward {
        backend: usize,
        url: Seq<char>,
        headers: Seq<(Seq<char>, Seq<char>)>,
        cache_key: Seq<char>,
    },
}

impl View for Decision {
    type V = DecisionView;

    open spec fn view(&self) -> DecisionView {
        match self {
            Decision::Reject { status } => DecisionView::Reject { status: *status },
            Decision::Cached { status, headers, body } => DecisionView::Cached {
                status: *status,
                headers: raw_view(headers@),
                body: body@,
            },
            Decision::Forward { backend, url, headers, cache_key } => DecisionView::Forward {
                backend: *backend,
                url: url@,
                headers: text_view(headers@),
                cache_key: cache_key@,
            },
        }
    }
}

/// The address that a request with `headers` from `peer` is charged to:
/// the one that `X-Forwarded-For` names first, if it names one, else the
/// peer's.
pub open spec fn client_address(headers: Seq<(Seq<char>, Seq<u8>)>, peer: Option<ClientIp>) -> Option<
    ClientIp,
> {
    match forwarded_candidate(headers) {
        Some(text) => if ip_of(text) is Some {
            ip_of(text)
        } else {
            peer
        },
        None => peer,
    }
}

/// The address that a request is charged to.
pub open spec fn client_of(req: InboundView) -> Option<ClientIp> {
    client_address(req.headers, req.peer)
}

/// The key of a response in the cache: method, a space, and the target.
pub open spec fn cache_key_of(method: Seq<char>, uri: Seq<char>) -> Seq<char> {
    method + seq![' '] + uri
}

/// What is joined to the backend's URL: path and query of the request,
/// or `/` if it has none.
pub open spec fn target_path(path_and_query: Option<Seq<char>>) -> Seq<char> {
    match path_and_query {
        Some(p) => if p.len() > 0 {
            p
        } else {
            seq!['/']
        },
        None => seq!['/'],
    }
}

/// Whether a status code can be sent: it has three digits.
pub open spec fn is_status(code: u16) -> bool {
    100 <= code <= 999
}

/// Whether every one of the headers can be sent: it has a valid name and
/// a valid value.
pub open spec fn sendable(hs: Seq<(Seq<char>, Seq<u8>)>) -> bool {
    forall|i: int|
        0 <= i < hs.len() ==> is_header_name_bytes(encode_utf8((#[trigger] hs[i]).0))
            && is_header_value_bytes(hs[i].1)
}

/// The answer that a cache entry gives: its status, headers and body, or
/// status 500 if its status or one of its headers cannot be sent.
pub open spec fn replay(e: EntryView) -> DecisionView {
    if is_status(e.status) && sendable(e.headers) {
        DecisionView::Cached { status: e.status, headers: e.headers, body: e.body }
    } else {
        DecisionView::Reject { status: 500 }
    }
}

/// The decision once the upstream URL was joined: forward to it, or
/// status 500 if there is none.
pub open spec fn forward(
    joined: Option<Seq<char>>,
    backend: usize,
    headers: Seq<(Seq<char>, Seq<char>)>,
    cache_key: Seq<char>,
) -> DecisionView {
    match joined {
        Some(url) => DecisionView::Forward { backend, url, headers, cache_key },
        None => DecisionView::Reject { status: 500 },
    }
}

/// What came of the upstream request.
#[derive(Debug)]
pub enum Upstream {
    /// No response headers within the backend timeout.
    TimedOut,
    /// The transport failed.
    Failed,
    /// The upstream answered with this status and these headers.
    Responded { status: u16, headers: Vec<(String, Vec<u8>)> },
}

/// An upstream outcome as the contracts see it.
pub enum UpstreamView {
    TimedOut,
    Failed,
    Responded { status: u16, headers: Seq<(Seq<char>, Seq<u8>)> },
}

impl View for Upstream {
    type V = UpstreamView;

    open spec fn view(&self) -> UpstreamView {
        match self {
            Upstream::TimedOut => UpstreamView::TimedOut,
            Upstream::Failed => UpstreamView::Failed,
            Upstream::Responded { status, headers } => UpstreamView::Responded {
                status: *status,
                headers: raw_view(headers@),
            },
        }
    }
}

/// How the upstream's response goes back to the client.
#[derive(Debug)]
pub enum Relay {
    /// Answer with a status and nothing else.
    Fail { status: u16 },
    /// Send status and headers, and pass the body through as it comes.
    Stream { status: u16, headers: Vec<(String, Vec<u8>)> },
    /// Read the whole body, then hand it to `AppState::finish`: the
    /// response is kept in the cache for `ttl` seconds.
    Buffer { status: u16, headers: Vec<(String, Vec<u8>)>, ttl: u64 },
}

/// A relay decision as the contracts see it.
pub enum RelayView {
    Fail { status: u16 },
    Stream { status: u16, headers: Seq<(Seq<char>, Seq<u8>)> },
    Buffer { status: u16, headers: Seq<(Seq<char>, Seq<u8>)>, ttl: u64 },
}

impl View for Relay {
    type V = RelayView;

    open spec fn view(&self) -> RelayView {
        match self {
            Relay::Fail { status } => RelayView::Fail { status: *status },
            Relay::Stream { status, headers } => RelayView::Stream {
                status: *status,
                headers: raw_view(headers@),
            },
            Relay::Buffer { status, headers, ttl } => RelayView::Buffer {
                status: *status,
                headers: raw_view(headers@),
                ttl: *ttl,
            },
        }
    }
}

/// What came of reading an upstream body into memory.
#[derive(Debug)]
pub enum BodyRead {
    Complete(Vec<u8>),
    Failed,
}

/// The answer to a request whose response was buffered.
#[derive(Debug)]
pub enum Reply {
    /// Answer with a status and nothing else.
    Fail { status: u16 },
    /// Answer with the buffered response.
    Buffered { status: u16, headers: Vec<(String, Vec<u8>)>, body: Vec<u8> },
}

/// A final answer as the contracts see it.
pub enum ReplyView {
    Fail { status: u16 },
    Buffered { status: u16, headers: Seq<(Seq<char>, Seq<u8>)>, body: Seq<u8> },
}

impl View for Reply {
    type V = ReplyView;

    open spec fn view(&self) -> ReplyView {
        match self {
            Reply::Fail { status } => ReplyView::Fail { status: *status },
            Reply::Buffered { status, headers, body } => ReplyView::Buffered {
                status: *status,
                headers: raw_view(headers@),
                body: body@,
            },
        }
    }
}

/// The answer to a request whose response was buffered: the response, if
/// its body was read and it can be sent; 502 if the body was not read,
/// else 500.
pub open spec fn finished(status: u16, headers: Seq<(Seq<char>, Seq<u8>)>, body: BodyRead) -> ReplyView {
    match body {
        BodyRead::Failed => ReplyView::Fail { status: 502 },
        BodyRead::Complete(b) => if is_status(status) && sendable(headers) {
            ReplyView::Buffered { status, headers, body: b@ }
        } else {
            ReplyView::Fail { status: 500 }
        },
    }
}

/// Nanoseconds in a second.
pub const NANOS_PER_SEC: u64 = 1_000_000_000;

/// The time from which a response stored at `now` for `ttl` seconds is
/// stale. It stops at the end of the clock.
pub open spec fn expiry(now: u64, ttl: u64) -> u64 {
    if now + ttl * NANOS_PER_SEC <= u64::MAX {
        (now + ttl * NANOS_PER_SEC) as u64
    } else {
        u64::MAX
    }
}

/// What the `Cache-Control` header among `headers` says, if there is one.
/// Only the first such header counts.
pub open spec fn cache_control_in(headers: Seq<(Seq<char>, Seq<u8>)>) -> Option<
    crate::cache_control::CacheControl,
> {
    match first_named(headers, "cache-control"@) {
        Some(v) => Some(cache_control_of(v)),
        None => None,
    }
}

/// The state that all requests of one listener share.
pub struct AppState {
    pub backends: Vec<String>,
    pub counter: BackendCursor,
    pub backend_timeout_secs: u64,
    pub rate_limit: RateLimiter,
    pub response_cache: Option<ResponseCache>,
    pub cache_ttl_secs: Option<u64>,
}

/// The shared state as the contracts see it.
pub struct AppStateView {
    pub backends: Seq<Seq<char>>,
    pub counter: usize,
    pub backend_timeout_secs: u64,
    pub rate_limit: RateLimiterView,
    pub cache: Option<CacheView>,
    pub cache_ttl_secs: Option<u64>,
}

impl View for AppState {
    type V = AppStateView;

    open spec fn view(&self) -> AppStateView {
        AppStateView {
            backends: self.backends@.map_values(|b: String| b@),
            counter: self.counter.value(),
            backend_timeout_secs: self.backend_timeout_secs,
            rate_limit: self.rate_limit@,
            cache: match self.response_cache {
                Some(c) => Some(c@),
                None => None,
            },
            cache_ttl_secs: self.cache_ttl_secs,
        }
    }
}

impl AppStateView {
    /// The validity of a state: the backend timeout is positive, a rate
    /// and a bound on the cache are positive where they are set, and the
    /// cache is valid.
    pub open spec fn wf(self) -> bool {
        &&& self.backend_timeout_secs > 0
        &&& self.rate_limit.per_minute matches Some(p) ==> p > 0
        &&& self.cache matches Some(c) ==> c.wf() && (c.cap matches Some(m) ==> m > 0)
    }

    /// What a lookup of `key` at `now` finds; nothing without a cache.
    pub open spec fn cached(self, key: Seq<char>, now: u64) -> Option<EntryView> {
        match self.cache {
            Some(c) => c.found(key, now),
            None => None,
        }
    }

    /// The state after a lookup of `key` at `now`.
    pub open spec fn looked_up(self, key: Seq<char>, now: u64) -> AppStateView {
        AppStateView {
            cache: match self.cache {
                Some(c) => Some(c.after_lookup(key, now)),
                None => None,
            },
            ..self
        }
    }

    /// How an upstream's response to a request with `method` goes back.
    ///
    /// A timeout gives 504 and a transport failure 502. A response passes
    /// with its status and all headers but the hop-by-hop ones; a status
    /// or a header that cannot be sent gives 500. The response is
    /// buffered for the cache when the method is `GET`, the status is 200,
    /// there is a cache, and `Cache-Control` and the configured default
    /// leave a time to live. Otherwise its body is streamed.
    pub open spec fn relayed(self, method: Seq<char>, outcome: UpstreamView) -> RelayView {
        match outcome {
            UpstreamView::TimedOut => RelayView::Fail { status: 504 },
            UpstreamView::Failed => RelayView::Fail { status: 502 },
            UpstreamView::Responded { status, headers } => {
                let kept = mirrored(headers);
                let ttl = ttl_of(cache_control_in(kept), self.cache_ttl_secs);
                if !is_status(status) || !sendable(kept) {
                    RelayView::Fail { status: 500 }
                } else if method == seq!['G', 'E', 'T'] && status == 200 && self.cache is Some
                    && ttl is Some {
                    RelayView::Buffer { status, headers: kept, ttl: ttl->0 }
                } else {
                    RelayView::Stream { status, headers: kept }
                }
            },
        }
    }

    /// What the proxy does with the request `req` that arrives at `now`,
    /// and the state that it leaves.
    ///
    /// With no backend the answer is 502 and nothing changes. Else the
    /// client's bucket is charged, and a client out of tokens gets 429.
    /// Else the cache is asked: a fresh entry is the answer, a stale one
    /// is dropped. Else the next backend in turn is chosen, its URL is
    /// joined with the request's path and query, and the request goes out
    /// with the headers that may be forwarded; if the URLs do not join,
    /// the answer is 500.
    pub open spec fn handle(self, req: InboundView, now: u64) -> (AppStateView, DecisionView) {
        let client = client_of(req);
        let key = cache_key_of(req.method, req.uri);
        if self.backends.len() == 0 {
            (self, DecisionView::Reject { status: 502 })
        } else if !self.rate_limit.allows(client, now) {
            (
                AppStateView { rate_limit: self.rate_limit.after(client, now), ..self },
                DecisionView::Reject { status: 429 },
            )
        } else {
            let admitted = AppStateView {
                rate_limit: self.rate_limit.after(client, now),
                ..self
            }.looked_up(key, now);
            match self.cached(key, now) {
                Some(e) => (admitted, replay(e)),
                None => {
                    let backend = pick(self.counter, self.backends.len() as usize) as usize;
                    (
                        AppStateView { counter: advance(self.counter), ..admitted },
                        forward(
                            url_joined(self.backends[backend as int], target_path(req.path_and_query)),
                            backend,
                            forwarded(req.headers),
                            key,
                        ),
                    )
                },
            }
        }
    }
}

/// What `X-Forwarded-For` offers as the client's address: the text before
/// the first comma of the first such header, without the blanks around
/// it. A header that is not UTF-8 offers nothing.
pub open spec fn forwarded_candidate(headers: Seq<(Seq<char>, Seq<u8>)>) -> Option<Seq<char>> {
    match first_named(headers, "x-forwarded-for"@) {
        Some(v) => if valid_utf8(v) {
            let text = decode_utf8(v);
            Some(trimmed(text.take(index_of(text, ',')), Strip::UnicodeSpace))
        } else {
            None
        },
        None => None,
    }
}

/// Extracts from the request headers the text that may name the client's
/// address.
pub fn forwarded_for_candidate(headers: &Vec<(String, Vec<u8>)>) -> (r: Option<String>)
    ensures
        r is Some <==> forwarded_candidate(raw_view(headers@)) is Some,
        r is Some ==> r->0@ == forwarded_candidate(raw_view(headers@))->0,
{
    let value = match get_header(headers, "x-forwarded-for") {
        Some(v) => v,
        None => {
            return None;
        },
    };
    let text = match str_from_utf8(value.as_slice()) {
        Some(t) => t,
        None => {
            return None;
        },
    };
    let chars = chars_of(text);
    let comma = find_char(chars.as_slice(), 0, chars.len(), ',');
    assert(chars@.subrange(0, chars.len() as int) =~= chars@);
    assert(chars@.subrange(0, comma as int) =~= chars@.take(comma as int));
    let (a, b) = trim_bounds(chars.as_slice(), 0, comma, Strip::UnicodeSpace);
    Some(text.substring_char(a, b).to_owned())
}

/// No header of an upstream request is hop-by-hop, `Host`,
/// `Authorization` or `Proxy-Authorization`, whatever the request and the
/// state it meets.
pub proof fn lemma_upstream_headers_clean(s: AppStateView, req: InboundView, now: u64)
    ensures
        s.handle(req, now).1 matches DecisionView::Forward { headers, .. } ==> forall|i: int|
            0 <= i < headers.len() ==> !hop_by_hop(#[trigger] headers[i].0) && !sensitive(
                headers[i].0,
            ),
{
    lemma_forwarded_headers_clean(req.headers);
}

/// No header of a relayed response is hop-by-hop.
pub proof fn lemma_relayed_headers_clean(s: AppStateView, method: Seq<char>, outcome: UpstreamView)
    ensures
        s.relayed(method, outcome) matches RelayView::Stream { headers, .. } ==> forall|i: int|
            0 <= i < headers.len() ==> !hop_by_hop(#[trigger] headers[i].0),
        s.relayed(method, outcome) matches RelayView::Buffer { headers, .. } ==> forall|i: int|
            0 <= i < headers.len() ==> !hop_by_hop(#[trigger] headers[i].0),
{
    if let UpstreamView::Responded { status, headers } = outcome {
        lemma_mirrored_headers_clean(headers);
    }
}

/// Whatever is answered from the cache or relayed from an upstream can be
/// sent: the status has three digits, and every header has a valid name
/// and a valid value.
pub proof fn lemma_answers_can_be_sent(
    s: AppStateView,
    req: InboundView,
    now: u64,
    method: Seq<char>,
    outcome: UpstreamView,
)
    ensures
        s.handle(req, now).1 matches DecisionView::Cached { status, headers, .. } ==> is_status(
            status,
        ) && sendable(headers),
        s.relayed(method, outcome) matches RelayView::Stream { status, headers } ==> is_status(
            status,
        ) && sendable(headers),
        s.relayed(method, outcome) matches RelayView::Buffer { status, headers, .. } ==> is_status(
            status,
        ) && sendable(headers),
{
}

/// An answer from the cache comes from an entry that is fresh at the time
/// of the request, and leaves the counter of the round robin alone.
pub proof fn lemma_cached_answer_is_fresh(s: AppStateView, req: InboundView, now: u64)
    requires
        s.handle(req, now).1 is Cached,
    ensures
        s.cached(cache_key_of(req.method, req.uri), now) matches Some(e) && e.expires_at > now
            && s.handle(req, now).1 == replay(e),
        s.handle(req, now).0.counter == s.counter,
{
}

/// A request that is answered from the cache gets the same answer when
/// it comes again, as long as the entry is fresh and the client has a
/// token: status, headers and body are the same, byte for byte.
pub proof fn lemma_cached_answer_repeats(s: AppStateView, req: InboundView, first: u64, second: u64)
    requires
        first <= second,
        s.handle(req, first).1 is Cached,
        s.cached(cache_key_of(req.method, req.uri), second) is Some,
        s.handle(req, first).0.rate_limit.allows(client_of(req), second),
    ensures
        s.handle(req, first).0.handle(req, second).1 == s.handle(req, first).1,
{
}

/// The state after the first `n` of the requests `reqs`, each given with
/// the time at which it arrives, were taken in one after the other.
pub open spec fn state_after(s: AppStateView, reqs: Seq<(InboundView, u64)>, n: nat) -> AppStateView
    decreases n,
{
    if n == 0 {
        s
    } else {
        state_after(s, reqs, (n - 1) as nat).handle(reqs[n - 1].0, reqs[n - 1].1).0
    }
}

/// What is decided on request number `i` of the requests `reqs`.
pub open spec fn decision_at(s: AppStateView, reqs: Seq<(InboundView, u64)>, i: nat) -> DecisionView {
    state_after(s, reqs, i).handle(reqs[i as int].0, reqs[i as int].1).1
}

/// How many of the first `n` of the requests `reqs` are forwarded to
/// backend number `b`.
pub open spec fn sent_to(s: AppStateView, reqs: Seq<(InboundView, u64)>, n: nat, b: int) -> nat
    decreases n,
{
    if n == 0 {
        0
    } else {
        let earlier = sent_to(s, reqs, (n - 1) as nat, b);
        if decision_at(s, reqs, (n - 1) as nat) matches DecisionView::Forward { backend, .. }
            && backend == b {
            earlier + 1
        } else {
            earlier
        }
    }
}

/// A request that is forwarded goes to the backend whose turn it is, and
/// moves the turn on by one.
pub proof fn lemma_forwarded_in_turn(s: AppStateView, req: InboundView, now: u64)
    requires
        s.backends.len() <= usize::MAX,
    ensures
        s.handle(req, now).0.backends == s.backends,
        s.handle(req, now).1 matches DecisionView::Forward { backend, .. } ==> backend == pick(
            s.counter,
            s.backends.len() as usize,
        ) && s.handle(req, now).0.counter == advance(s.counter),
{
}

proof fn lemma_run_follows_counter(s: AppStateView, reqs: Seq<(InboundView, u64)>, n: nat, b: int)
    requires
        s.backends.len() <= usize::MAX,
        n <= reqs.len(),
        s.counter + n <= usize::MAX + 1,
        forall|i: nat| i < reqs.len() ==> #[trigger] decision_at(s, reqs, i) is Forward,
    ensures
        state_after(s, reqs, n).backends == s.backends,
        state_after(s, reqs, n).counter == counter_after(s.counter, n),
        sent_to(s, reqs, n, b) == share(s.counter, s.backends.len() as usize, n, b),
    decreases n,
{
    if n > 0 {
        let m = (n - 1) as nat;
        lemma_run_follows_counter(s, reqs, m, b);
        let before = state_after(s, reqs, m);
        assert(decision_at(s, reqs, m) is Forward);
        lemma_forwarded_in_turn(before, reqs[m as int].0, reqs[m as int].1);
    }
}

/// Round robin is fair through the pipeline: of requests that are taken
/// in one after the other and are all forwarded, every backend gets its
/// share, `n / backends` of them or one more, and exactly that many when
/// `backends` divides `n`. It is stated for runs over which the counter
/// does not wrap around; a request that is answered by the proxy itself
/// is no part of such a run.
pub proof fn lemma_forwarded_run_is_fair(s: AppStateView, reqs: Seq<(InboundView, u64)>, b: int)
    requires
        s.backends.len() <= usize::MAX,
        0 <= b < s.backends.len(),
        s.counter + reqs.len() <= usize::MAX + 1,
        forall|i: nat| i < reqs.len() ==> #[trigger] decision_at(s, reqs, i) is Forward,
    ensures
        reqs.len() / s.backends.len() <= sent_to(s, reqs, reqs.len(), b) <= reqs.len()
            / s.backends.len() + 1,
        reqs.len() % s.backends.len() == 0 ==> sent_to(s, reqs, reqs.len(), b) == reqs.len()
            / s.backends.len(),
{
    lemma_run_follows_counter(s, reqs, reqs.len(), b);
    lemma_round_robin_fair(s.counter, s.backends.len() as usize, reqs.len(), b);
}

/// Builds the key of a response in the cache.
pub fn cache_key(method: &str, uri: &str) -> (key: String)
    ensures
        key@ == cache_key_of(method@, uri@),
{
    let mut key = String::from_str(method);
    proof {
        reveal_strlit(" ");
    }
    key.append(" ");
    key.append(uri);
    assert(" "@ =~= seq![' ']);
    key
}

/// Finds the address that a request is charged to.
pub fn client_ip(headers: &Vec<(String, Vec<u8>)>, peer: Option<ClientIp>) -> (r: Option<ClientIp>)
    ensures
        r == client_address(raw_view(headers@), peer),
{
    match forwarded_for_candidate(headers) {
        Some(text) => match parse_ip(text.as_str()) {
            Some(ip) => Some(ip),
            None => peer,
        },
        None => peer,
    }
}

/// Decides on the admission of a request that arrives at `now` with
/// `headers` from `peer`, charging the bucket of its client. A request
/// that is not admitted gets status 429.
pub fn check_rate_limit(
    state: &mut AppState,
    headers: &Vec<(String, Vec<u8>)>,
    peer: Option<ClientIp>,
    now: u64,
) -> (r: Result<(), u16>)
    ensures
        final(state)@ == (AppStateView {
            rate_limit: old(state)@.rate_limit.after(
                client_address(raw_view(headers@), peer),
                now,
            ),
            ..old(state)@
        }),
        r is Ok <==> old(state)@.rate_limit.allows(client_address(raw_view(headers@), peer), now),
        r is Err ==> r == Err::<(), u16>(429),
{
    let client = client_ip(headers, peer);
    if state.rate_limit.check(client, now) {
        Ok(())
    } else {
        Err(429)
    }
}

/// Tells whether every one of the headers has a valid name and a valid
/// value.
pub fn can_be_sent(headers: &Vec<(String, Vec<u8>)>) -> (r: bool)
    ensures
        r == sendable(raw_view(headers@)),
{
    let mut i: usize = 0;
    while i < headers.len()
        invariant
            i <= headers.len(),
            forall|j: int|
                0 <= j < i ==> is_header_name_bytes(
                    encode_utf8((#[trigger] raw_view(headers@)[j]).0),
                ) && is_header_value_bytes(raw_view(headers@)[j].1),
        decreases headers.len() - i,
    {
        assert(raw_view(headers@)[i as int] == (headers@[i as int].0@, headers@[i as int].1@));
        if !header_name_ok(headers[i].0.as_str().as_bytes()) || !header_value_ok(
            headers[i].1.as_slice(),
        ) {
            return false;
        }
        i += 1;
    }
    true
}

/// Turns a fresh cache entry into the answer to a request.
pub fn replay_entry(entry: CacheEntry) -> (d: Decision)
    ensures
        d@ == replay(entry@),
{
    if entry.status < 100 || entry.status > 999 || !can_be_sent(&entry.headers) {
        return Decision::Reject { status: 500 };
    }
    Decision::Cached { status: entry.status, headers: entry.headers, body: entry.body }
}

/// Decides on a request for which the upstream URL was joined: it is
/// forwarded there, or answered with 500 if there is no URL.
pub fn forward_decision(
    joined: Option<String>,
    backend: usize,
    headers: Vec<(String, String)>,
    cache_key: String,
) -> (d: Decision)
    ensures
        d@ == forward(
            match joined {
                Some(u) => Some(u@),
                None => None,
            },
            backend,
            text_view(headers@),
            cache_key@,
        ),
{
    match joined {
        Some(url) => Decision::Forward { backend, url, headers, cache_key },
        None => Decision::Reject { status: 500 },
    }
}

/// A configured number of bytes as the machine can count it: itself, or
/// the largest number of the machine's word if it is beyond that.
pub open spec fn word_bound(bytes: Option<u64>) -> Option<usize> {
    match bytes {
        Some(n) => if n > usize::MAX {
            Some(usize::MAX)
        } else {
            Some(n as usize)
        },
        None => None,
    }
}

/// A bound in bytes that must be positive: a zero counts as not set.
pub open spec fn positive_size(bytes: Option<usize>) -> Option<usize> {
    match bytes {
        Some(m) => if m > 0 {
            Some(m)
        } else {
            None
        },
        None => None,
    }
}

/// Computes the time from which a response stored at `now` is stale.
pub fn expires_at(now: u64, ttl: u64) -> (t: u64)
    ensures
        t == expiry(now, ttl),
{
    match ttl.checked_mul(NANOS_PER_SEC) {
        Some(span) => match now.checked_add(span) {
            Some(t) => t,
            None => u64::MAX,
        },
        None => u64::MAX,
    }
}

fn copy_headers(headers: &Vec<(String, Vec<u8>)>) -> (out: Vec<(String, Vec<u8>)>)
    ensures
        raw_view(out@) == raw_view(headers@),
{
    let mut out: Vec<(String, Vec<u8>)> = Vec::new();
    let mut i: usize = 0;
    while i < headers.len()
        invariant
            i <= headers.len(),
            out@.len() == i,
            forall|j: int|
                0 <= j < i ==> (#[trigger] out@[j]).0@ == headers@[j].0@ && out@[j].1@
                    == headers@[j].1@,
        decreases headers.len() - i,
    {
        let name = headers[i].0.clone();
        let value = headers[i].1.clone();
        out.push((name, value));
        i += 1;
    }
    assert(raw_view(out@) =~= raw_view(headers@));
    out
}

/// Takes a request in: answers it from what the proxy knows, or names
/// the upstream request to send for it.
pub fn proxy_handler(state: &mut AppState, req: &Inbound, now: u64) -> (d: Decision)
    requires
        old(state)@.wf(),
    ensures
        final(state)@.wf(),
        (final(state)@, d@) == old(state)@.handle(req@, now),
{
    if state.backends.len() == 0 {
        return Decision::Reject { status: 502 };
    }
    if check_rate_limit(state, &req.headers, req.peer, now).is_err() {
        return Decision::Reject { status: 429 };
    }
    let key = cache_key(req.method.as_str(), req.uri.as_str());
    let hit = match &mut state.response_cache {
        Some(cache) => cache.lookup(key.as_str(), now),
        None => None,
    };
    if let Some(entry) = hit {
        return replay_entry(entry);
    }
    let backend = match state.counter.select(state.backends.len()) {
        Some(b) => b,
        // there are backends, so one was chosen
        None => {
            return Decision::Reject { status: 502 };
        },
    };
    let joined = match &req.path_and_query {
        Some(p) => if !p.as_str().is_empty() {
            url_join(state.backends[backend].as_str(), p.as_str())
        } else {
            url_join(state.backends[backend].as_str(), "/")
        },
        None => url_join(state.backends[backend].as_str(), "/"),
    };
    proof {
        reveal_strlit("/");
        assert("/"@ =~= seq!['/']);
    }
    let headers = sanitize_and_forward_headers(&req.headers);
    forward_decision(joined, backend, headers, key)
}

impl AppState {
    /// A state with nothing cached and no client seen. A cache is kept
    /// only for a time to live above zero. A timeout of zero gives way to
    /// the default, and a rate or a bound on the cache of zero counts as
    /// not set.
    pub fn new(
        backends: Vec<String>,
        backend_timeout_secs: u64,
        rate_limit_per_minute: Option<u64>,
        rate_limit_burst: Option<u64>,
        cache_ttl_secs: Option<u64>,
        cache_max_size_bytes: Option<usize>,
    ) -> (s: AppState)
        ensures
            s@.wf(),
            s@.backends == backends@.map_values(|b: String| b@),
            s@.counter == 0,
            s@.backend_timeout_secs == positive_or(
                Some(backend_timeout_secs),
                DEFAULT_BACKEND_TIMEOUT_SECS,
            ),
            s@.rate_limit.per_minute == positive(rate_limit_per_minute),
            s@.rate_limit.burst == rate_limit_burst,
            s@.rate_limit.buckets.dom() == Set::<(u8, u128)>::empty(),
            s@.cache_ttl_secs == cache_ttl_secs,
            s@.cache is Some <==> (cache_ttl_secs is Some && cache_ttl_secs->0 > 0),
            s@.cache is Some ==> s@.cache->0.entries.dom() == Set::<Seq<char>>::empty()
                && s@.cache->0.cap == positive_size(cache_max_size_bytes),
    {
        let enabled = match cache_ttl_secs {
            Some(ttl) => ttl > 0,
            None => false,
        };
        let cap = match cache_max_size_bytes {
            Some(m) => if m > 0 {
                Some(m)
            } else {
                None
            },
            None => None,
        };
        let response_cache = if enabled {
            Some(ResponseCache::new(cap))
        } else {
            None
        };
        AppState {
            backends,
            counter: BackendCursor::new(),
            backend_timeout_secs: if_positive_or(
                Some(backend_timeout_secs),
                DEFAULT_BACKEND_TIMEOUT_SECS,
            ),
            rate_limit: RateLimiter::new(if_positive(rate_limit_per_minute), rate_limit_burst),
            response_cache,
            cache_ttl_secs,
        }
    }

    /// The state that a validated configuration starts with. A bound on
    /// the cache beyond the machine's word is the largest the word holds.
    pub fn from_config(entry: &ConfigEntry) -> (s: AppState)
        ensures
            s@.wf(),
            s@.backends == entry@.backends,
            s@.counter == 0,
            s@.backend_timeout_secs == positive_or(
                Some(entry.backend_timeout_secs),
                DEFAULT_BACKEND_TIMEOUT_SECS,
            ),
            s@.rate_limit.per_minute == positive(entry.rate_limit_per_minute),
            s@.rate_limit.burst == entry.rate_limit_burst,
            s@.rate_limit.buckets.dom() == Set::<(u8, u128)>::empty(),
            s@.cache_ttl_secs == entry.cache_ttl_secs,
            s@.cache is Some <==> (entry.cache_ttl_secs is Some && entry.cache_ttl_secs->0 > 0),
            s@.cache is Some ==> s@.cache->0.entries.dom() == Set::<Seq<char>>::empty()
                && s@.cache->0.cap == positive_size(word_bound(entry.cache_max_size_bytes)),
            in_domain(entry@) ==> s@.backend_timeout_secs == entry.backend_timeout_secs
                && s@.rate_limit.per_minute == entry.rate_limit_per_minute,
    {
        let cap = match entry.cache_max_size_bytes {
            Some(n) => if n > usize::MAX as u64 {
                Some(usize::MAX)
            } else {
                Some(n as usize)
            },
            None => None,
        };
        let mut backends: Vec<String> = Vec::new();
        let mut i: usize = 0;
        while i < entry.backends.len()
            invariant
                i <= entry.backends.len(),
                backends@.len() == i,
                forall|j: int| 0 <= j < i ==> (#[trigger] backends@[j])@ == entry.backends@[j]@,
            decreases entry.backends.len() - i,
        {
            backends.push(entry.backends[i].clone());
            i += 1;
        }
        assert(backends@.map_values(|b: String| b@) =~= entry@.backends);
        AppState::new(
            backends,
            entry.backend_timeout_secs,
            entry.rate_limit_per_minute,
            entry.rate_limit_burst,
            entry.cache_ttl_secs,
            cap,
        )
    }

    /// Decides how the outcome of the upstream request goes back to the
    /// client that asked with `method`.
    pub fn relay(&self, method: &str, outcome: Upstream) -> (r: Relay)
        ensures
            r@ == self@.relayed(method@, outcome@),
    {
        match outcome {
            Upstream::TimedOut => Relay::Fail { status: 504 },
            Upstream::Failed => Relay::Fail { status: 502 },
            Upstream::Responded { status, headers } => {
                if status < 100 || status > 999 {
                    return Relay::Fail { status: 500 };
                }
                let kept = strip_hop_by_hop(&headers);
                if !can_be_sent(&kept) {
                    return Relay::Fail { status: 500 };
                }
                let said = match get_header(&kept, "cache-control") {
                    Some(v) => Some(parse_cache_control_bytes(v.as_slice())),
                    None => None,
                };
                let ttl = resolve_ttl(said, self.cache_ttl_secs);
                proof {
                    reveal_strlit("GET");
                    assert("GET"@ =~= seq!['G', 'E', 'T']);
                }
                let cacheable = str_eq(method, "GET") && status == 200
                    && self.response_cache.is_some();
                match ttl {
                    Some(t) => if cacheable {
                        Relay::Buffer { status, headers: kept, ttl: t }
                    } else {
                        Relay::Stream { status, headers: kept }
                    },
                    None => Relay::Stream { status, headers: kept },
                }
            },
        }
    }

    /// Ends a request whose response was to be buffered. A body that was
    /// read in full is stored under `cache_key` until `ttl` seconds after
    /// `now`, and is the answer. A body that could not be read gives 502,
    /// a status or a header that cannot be sent gives 500, and neither
    /// stores anything.
    pub fn finish(
        &mut self,
        cache_key: String,
        status: u16,
        headers: Vec<(String, Vec<u8>)>,
        ttl: u64,
        body: BodyRead,
        now: u64,
    ) -> (r: Reply)
        requires
            old(self)@.wf(),
        ensures
            final(self)@.wf(),
            final(self)@.backends == old(self)@.backends,
            final(self)@.counter == old(self)@.counter,
            final(self)@.backend_timeout_secs == old(self)@.backend_timeout_secs,
            final(self)@.rate_limit == old(self)@.rate_limit,
            final(self)@.cache_ttl_secs == old(self)@.cache_ttl_secs,
            final(self)@.cache is Some <==> old(self)@.cache is Some,
            final(self)@.cache matches Some(c) ==> c.cap == old(self)@.cache->0.cap,
            r@ == finished(status, raw_view(headers@), body),
            r is Fail ==> final(self)@.cache == old(self)@.cache,
            r is Buffered ==> (body matches BodyRead::Complete(b) ==> (old(self)@.cache matches Some(
                c,
            ) ==> if c.total + b@.len() <= usize::MAX {
                evicted_from(
                    c.entries.insert(
                        cache_key@,
                        EntryView {
                            status,
                            headers: raw_view(headers@),
                            body: b@,
                            expires_at: expiry(now, ttl),
                            size: b@.len() as usize,
                        },
                    ),
                    final(self)@.cache->0,
                )
            } else {
                final(self)@.cache == old(self)@.cache
            })),
    {
        let bytes = match body {
            BodyRead::Complete(b) => b,
            BodyRead::Failed => {
                return Reply::Fail { status: 502 };
            },
        };
        if status < 100 || status > 999 || !can_be_sent(&headers) {
            return Reply::Fail { status: 500 };
        }
        match &mut self.response_cache {
            Some(cache) => {
                let entry = CacheEntry {
                    status,
                    headers: copy_headers(&headers),
                    body: bytes.clone(),
                    expires_at: expires_at(now, ttl),
                    size: bytes.len(),
                };
                cache.insert(cache_key, entry);
            },
            None => {},
        }
        Reply::Buffered { status, headers, body: bytes }
    }
}

} // verus!
