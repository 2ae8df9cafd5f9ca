//! The peer-observation responder: how a directly reachable DIG node answers a peer's "what
//! address do I appear at?" over the authenticated peer session, and the abuse bounds on doing
//! so.
//!
//! [`observe`] is a pure decision: no socket, no listener, no clock. A DIG node never opens a
//! UDP STUN listener to serve peers; the caller owns the session and calls [`observe`] once per
//! request, after [`ObserveLimiter::allow`].
use vstd::prelude::*;

use crate::addr::{fold_ip, ip_eq, spec_fold_ip, IpAddr, SocketAddr};
use crate::scope::{scope_of, spec_scope_of, Scope};

verus! {

broadcast use vstd::seq_lib::group_seq_properties;

/// Which side accepted the TCP connection the observation rides on.
#[derive(Debug, Clone, Copy, PartialEq, Eq, Structural)]
pub enum Direction {
    /// This node accepted the connection: `remote` is an observation of the peer's traffic.
    Inbound,
    /// This node dialled out: `remote` is the address it chose to dial, not an observation.
    Outbound,
}

/// Whether the session rides directly on the wire or through a relay circuit.
#[derive(Debug, Clone, Copy, PartialEq, Eq, Structural)]
pub enum Path {
    /// A direct transport connection between the two peers.
    Direct,
    /// A relayed circuit: `remote` is the relay's endpoint (or a wildcard), never the requester.
    Relayed,
}

/// The facts about a session that [`observe`] decides on.
#[non_exhaustive]
#[derive(Debug, Clone, Copy)]
pub struct SessionMeta {
    /// Which side accepted the connection.
    pub direction: Direction,
    /// Whether the connection is direct or relayed.
    pub path: Path,
    /// The remote address the connection arrived from.
    pub remote: SocketAddr,
}

impl SessionMeta {
    /// A [`SessionMeta`] from its three facts.
    pub fn new(direction: Direction, path: Path, remote: SocketAddr) -> (r: SessionMeta)
        ensures
            r.direction == direction,
            r.path == path,
            r.remote == remote,
    {
        SessionMeta { direction, path, remote }
    }
}

/// Why [`observe`] (or the caller's limiter) declined to answer.
#[derive(Debug, Clone, Copy, PartialEq, Eq, Structural)]
pub enum Refusal {
    /// This node dialled out on this connection.
    Outbound,
    /// The session rides a relayed circuit.
    Relayed,
    /// The observed address can never be a legitimate dial target.
    Unusable,
    /// The caller's [`ObserveLimiter`] refused; never produced by [`observe`] itself. The caller
    /// reports it rather than drop the request silently, so the requester can tell "this peer
    /// will not tell me" from "this peer is dead".
    RateLimited,
}

/// The observation decision: answer only over an inbound, direct session whose remote address is
/// not never-dialable, and answer with that address, its IP folded.
pub open spec fn spec_observe(meta: SessionMeta) -> Result<SocketAddr, Refusal> {
    if meta.direction != Direction::Inbound {
        Err(Refusal::Outbound)
    } else if meta.path != Path::Direct {
        Err(Refusal::Relayed)
    } else if spec_scope_of(meta.remote) == Scope::NeverDialable {
        Err(Refusal::Unusable)
    } else {
        Ok(SocketAddr { ip: spec_fold_ip(meta.remote.ip), port: meta.remote.port })
    }
}

/// Whether, and at what address, to tell a peer what its own traffic looks like from here.
///
/// Answers only when the connection is [`Direction::Inbound`] (else [`Refusal::Outbound`]), the
/// path is [`Path::Direct`] (else [`Refusal::Relayed`]), and the remote address is not
/// [`Scope::NeverDialable`] (else [`Refusal::Unusable`]); a private-scope remote IS answered.
/// The answer is the remote address with an IPv4-mapped IPv6 IP folded to IPv4, so a requester
/// that connected over IPv4 never gets a 16-byte address. The port is carried unchanged; it is
/// informational only, for the requester to interpret.
pub fn observe(meta: &SessionMeta) -> (r: Result<SocketAddr, Refusal>)
    ensures
        r == spec_observe(*meta),
{
    if meta.direction != Direction::Inbound {
        return Err(Refusal::Outbound);
    }
    if meta.path != Path::Direct {
        return Err(Refusal::Relayed);
    }
    if scope_of(meta.remote) == Scope::NeverDialable {
        return Err(Refusal::Unusable);
    }
    Ok(SocketAddr { ip: fold_ip(meta.remote.ip), port: meta.remote.port })
}

/// An answer is only ever given over an inbound, direct session, and is always a usable dial
/// target in the IPv4 family when the remote was an IPv4-mapped address.
pub proof fn lemma_answers_only_inbound_direct(meta: SessionMeta)
    ensures
        spec_observe(meta) is Ok ==> meta.direction == Direction::Inbound && meta.path
            == Path::Direct && spec_scope_of(spec_observe(meta)->Ok_0) != Scope::NeverDialable,
{
    if spec_observe(meta) is Ok {
        crate::scope::lemma_fold_first(meta.remote.ip);
    }
}

// ---------------------------------------------------------------------------------------------
// The limiter.
// ---------------------------------------------------------------------------------------------
/// Default: answers per authenticated session per minute, and, independently, per source IP
/// per minute.
pub const OBSERVE_PER_SESSION_PER_MINUTE: u32 = 6;

/// Default: answers per second in total, across every session.
pub const OBSERVE_GLOBAL_PER_SECOND: u32 = 64;

/// Bound on distinct sessions, and separately on distinct source IPs, tracked at once. Past it
/// the least-recently-seen entry is evicted, so neither map can be grown without bound.
pub const MAX_TRACKED_SOURCES: usize = 4096;

/// The per-session and per-source window, in milliseconds.
pub const SESSION_SOURCE_WINDOW_MS: u64 = 60_000;

/// The global window, in milliseconds.
pub const GLOBAL_WINDOW_MS: u64 = 1_000;

/// A whole-token bucket refilled to its capacity once per fixed window.
#[derive(Debug, Clone, Copy, PartialEq, Eq, Structural)]
pub struct TokenBucket {
    /// Tokens left in the current window.
    pub tokens: u32,
    /// The window index (`now_ms / window_ms`) the tokens belong to.
    pub window: u64,
    /// When this bucket was last asked about.
    pub last_seen_ms: u64,
}

/// A bucket created at `now_ms`: full.
pub open spec fn spec_fresh(capacity: u32, now_ms: u64, window_ms: u64) -> TokenBucket {
    TokenBucket { tokens: capacity, window: now_ms / window_ms, last_seen_ms: now_ms }
}

/// Whether a token is available at `now_ms`: a new window always has one (it refills), the
/// current one only if any is left.
pub open spec fn spec_peek(b: TokenBucket, now_ms: u64, window_ms: u64) -> bool {
    now_ms / window_ms != b.window || b.tokens > 0
}

/// The bucket after spending one token at `now_ms`, refilling first in a new window.
pub open spec fn spec_spend(b: TokenBucket, capacity: u32, now_ms: u64, window_ms: u64) -> TokenBucket {
    let tokens = if now_ms / window_ms != b.window {
        capacity
    } else {
        b.tokens
    };
    TokenBucket {
        tokens: if tokens == 0 {
            0
        } else {
            (tokens - 1) as u32
        },
        window: now_ms / window_ms,
        last_seen_ms: now_ms,
    }
}

/// The bucket marked as asked about at `now_ms`, nothing else changed.
pub open spec fn spec_touch(b: TokenBucket, now_ms: u64) -> TokenBucket {
    TokenBucket { last_seen_ms: now_ms, ..b }
}

impl TokenBucket {
    fn new(capacity: u32, now_ms: u64, window_ms: u64) -> (r: TokenBucket)
        requires
            window_ms > 0,
        ensures
            r == spec_fresh(capacity, now_ms, window_ms),
    {
        TokenBucket { tokens: capacity, window: now_ms / window_ms, last_seen_ms: now_ms }
    }

    fn peek(&self, now_ms: u64, window_ms: u64) -> (r: bool)
        requires
            window_ms > 0,
        ensures
            r == spec_peek(*self, now_ms, window_ms),
    {
        now_ms / window_ms != self.window || self.tokens > 0
    }

    fn spend(&mut self, capacity: u32, now_ms: u64, window_ms: u64)
        requires
            window_ms > 0,
        ensures
            *final(self) == spec_spend(*old(self), capacity, now_ms, window_ms),
    {
        let window = now_ms / window_ms;
        if window != self.window {
            self.window = window;
            self.tokens = capacity;
        }
        self.tokens = self.tokens.saturating_sub(1);
        self.last_seen_ms = now_ms;
    }
}

/// The map from keys to buckets that parallel key and bucket sequences hold.
pub open spec fn bucket_map<K>(keys: Seq<K>, buckets: Seq<TokenBucket>) -> Map<K, TokenBucket> {
    Map::new(
        |k: K| keys.contains(k),
        |k: K| buckets[choose|i: int| 0 <= i < keys.len() && keys[i] == k],
    )
}

/// How a map of buckets admits `key` at `now`: unchanged if already tracked; else the key enters
/// with a fresh bucket, first evicting a least-recently-seen entry if the map is at the bound.
pub open spec fn admitted<K>(
    before: Map<K, TokenBucket>,
    after: Map<K, TokenBucket>,
    key: K,
    fresh: TokenBucket,
) -> bool {
    if before.contains_key(key) {
        after == before
    } else if before.len() < MAX_TRACKED_SOURCES {
        after == before.insert(key, fresh)
    } else {
        exists|victim: K|
            #![trigger before.remove(victim)]
            before.contains_key(victim) && (forall|k: K|
                before.contains_key(k) ==> before[victim].last_seen_ms <= before[k].last_seen_ms)
                && after == before.remove(victim).insert(key, fresh)
    }
}

/// What an [`ObserveLimiter`] holds: its two capacities, the per-session and per-source buckets,
/// and the global bucket.
pub struct LimiterView {
    pub per_minute_capacity: u32,
    pub global_capacity: u32,
    pub sessions: Map<Seq<char>, TokenBucket>,
    pub sources: Map<IpAddr, TokenBucket>,
    pub global: TokenBucket,
}

/// Abuse bounds for the observation responder: an independent per-session budget, an
/// independent per-source-IP budget, and a global budget checked only once both narrower ones
/// permit, so one abuser can never drain the budget meant for everyone else. Keys are transport
/// facts: the session's authenticated peer id and the connection's source IP (folded).
pub struct ObserveLimiter {
    per_minute_capacity: u32,
    global_capacity: u32,
    session_keys: Vec<String>,
    session_buckets: Vec<TokenBucket>,
    source_keys: Vec<IpAddr>,
    source_buckets: Vec<TokenBucket>,
    global: TokenBucket,
}

impl View for ObserveLimiter {
    type V = LimiterView;

    closed spec fn view(&self) -> LimiterView {
        LimiterView {
            per_minute_capacity: self.per_minute_capacity,
            global_capacity: self.global_capacity,
            sessions: bucket_map(self.session_key_views(), self.session_buckets@),
            sources: bucket_map(self.source_keys@, self.source_buckets@),
            global: self.global,
        }
    }
}

/// The outcome of one `allow` on a limiter's state, given the maps after `session` (and, if it
/// got that far, `source`) were admitted: see [`ObserveLimiter::allow`].
pub open spec fn allow_outcome(
    before: LimiterView,
    after: LimiterView,
    session: Seq<char>,
    source: IpAddr,
    now_ms: u64,
    allowed: bool,
) -> bool {
    let cap = before.per_minute_capacity;
    let w = SESSION_SOURCE_WINDOW_MS;
    exists|sessions: Map<Seq<char>, TokenBucket>|
        #![trigger admitted(before.sessions, sessions, session, spec_fresh(cap, now_ms, w))]
        admitted(before.sessions, sessions, session, spec_fresh(cap, now_ms, w)) && {
            let sb = sessions[session];
            &&& after.per_minute_capacity == before.per_minute_capacity
            &&& after.global_capacity == before.global_capacity
            &&& if !spec_peek(sb, now_ms, w) {
                &&& !allowed
                &&& after.sessions == sessions.insert(session, spec_touch(sb, now_ms))
                &&& after.sources == before.sources
                &&& after.global == before.global
            } else {
                exists|sources: Map<IpAddr, TokenBucket>|
                    #![trigger admitted(before.sources, sources, source, spec_fresh(cap, now_ms, w))]
                    admitted(before.sources, sources, source, spec_fresh(cap, now_ms, w)) && {
                        let rb = sources[source];
                        if !spec_peek(rb, now_ms, w) {
                            &&& !allowed
                            &&& after.sessions == sessions
                            &&& after.sources == sources.insert(source, spec_touch(rb, now_ms))
                            &&& after.global == before.global
                        } else if !spec_peek(before.global, now_ms, GLOBAL_WINDOW_MS) {
                            &&& !allowed
                            &&& after.sessions == sessions
                            &&& after.sources == sources
                            &&& after.global == before.global
                        } else {
                            &&& allowed
                            &&& after.sessions == sessions.insert(session, spec_spend(sb, cap, now_ms, w))
                            &&& after.sources == sources.insert(source, spec_spend(rb, cap, now_ms, w))
                            &&& after.global == spec_spend(
                                before.global,
                                before.global_capacity,
                                now_ms,
                                GLOBAL_WINDOW_MS,
                            )
                        }
                    }
            }
        }
}

impl ObserveLimiter {
    /// The session keys as character sequences.
    spec fn session_key_views(&self) -> Seq<Seq<char>> {
        self.session_keys@.map_values(|s: String| s@)
    }

    /// The limiter's internal invariant: keys unique, keys and buckets paired, both maps within
    /// [`MAX_TRACKED_SOURCES`].
    pub closed spec fn wf(&self) -> bool {
        &&& self.session_keys@.len() == self.session_buckets@.len()
        &&& self.source_keys@.len() == self.source_buckets@.len()
        &&& self.session_keys@.len() <= MAX_TRACKED_SOURCES
        &&& self.source_keys@.len() <= MAX_TRACKED_SOURCES
        &&& self.session_key_views().no_duplicates()
        &&& self.source_keys@.no_duplicates()
    }

    /// A limiter whose per-session and per-source budgets are both `per_session_per_minute`
    /// (one number, two independently keyed maps: CGNAT can put many sessions behind one IP)
    /// and whose shared budget is `global_per_second`. A `0` capacity denies every request in
    /// that dimension.
    pub fn new(per_session_per_minute: u32, global_per_second: u32) -> (r: ObserveLimiter)
        ensures
            r.wf(),
            r@.per_minute_capacity == per_session_per_minute,
            r@.global_capacity == global_per_second,
            r@.sessions == Map::<Seq<char>, TokenBucket>::empty(),
            r@.sources == Map::<IpAddr, TokenBucket>::empty(),
            r@.global == spec_fresh(global_per_second, 0, GLOBAL_WINDOW_MS),
    {
        let r = ObserveLimiter {
            per_minute_capacity: per_session_per_minute,
            global_capacity: global_per_second,
            session_keys: Vec::new(),
            session_buckets: Vec::new(),
            source_keys: Vec::new(),
            source_buckets: Vec::new(),
            global: TokenBucket::new(global_per_second, 0, GLOBAL_WINDOW_MS),
        };
        assert(r@.sessions =~= Map::<Seq<char>, TokenBucket>::empty());
        assert(r@.sources =~= Map::<IpAddr, TokenBucket>::empty());
        r
    }

    /// How many sessions are tracked right now.
    pub fn tracked_sessions(&self) -> (n: usize)
        requires
            self.wf(),
        ensures
            n == self@.sessions.len(),
            n <= MAX_TRACKED_SOURCES,
    {
        proof {
            lemma_bucket_map_len(self.session_key_views(), self.session_buckets@);
        }
        self.session_keys.len()
    }

    /// How many source IPs are tracked right now.
    pub fn tracked_sources(&self) -> (n: usize)
        requires
            self.wf(),
        ensures
            n == self@.sources.len(),
            n <= MAX_TRACKED_SOURCES,
    {
        proof {
            lemma_bucket_map_len(self.source_keys@, self.source_buckets@);
        }
        self.source_keys.len()
    }
}

/// The index of a least-recently-seen bucket.
fn lru_index(buckets: &Vec<TokenBucket>) -> (v: usize)
    requires
        buckets@.len() > 0,
    ensures
        v < buckets@.len(),
        forall|j: int| 0 <= j < buckets@.len() ==> buckets@[v as int].last_seen_ms <= buckets@[j].last_seen_ms,
{
    let mut best: usize = 0;
    let mut i: usize = 1;
    while i < buckets.len()
        invariant
            1 <= i <= buckets@.len(),
            best < i,
            forall|j: int| 0 <= j < i ==> buckets@[best as int].last_seen_ms <= buckets@[j].last_seen_ms,
        decreases buckets@.len() - i,
    {
        if buckets[i].last_seen_ms < buckets[best].last_seen_ms {
            best = i;
        }
        i = i + 1;
    }
    best
}

impl ObserveLimiter {
    /// Track `key` in the per-session map, returning its index: found, or entered with a fresh
    /// bucket after evicting a least-recently-seen session when the map is full.
    fn admit_session(&mut self, key: &String, now_ms: u64) -> (i: usize)
        requires
            old(self).wf(),
        ensures
            final(self).wf(),
            i < final(self).session_keys@.len(),
            final(self).session_key_views()[i as int] == key@,
            admitted(
                old(self)@.sessions,
                final(self)@.sessions,
                key@,
                spec_fresh(old(self).per_minute_capacity, now_ms, SESSION_SOURCE_WINDOW_MS),
            ),
            final(self).per_minute_capacity == old(self).per_minute_capacity,
            final(self).global_capacity == old(self).global_capacity,
            final(self).source_keys == old(self).source_keys,
            final(self).source_buckets == old(self).source_buckets,
            final(self).global == old(self).global,
    {
        let ghost keys0 = self.session_key_views();
        let ghost buckets0 = self.session_buckets@;
        let mut i: usize = 0;
        while i < self.session_keys.len()
            invariant
                0 <= i <= self.session_keys@.len(),
                self.wf(),
                self.session_key_views() == keys0,
                forall|j: int| 0 <= j < i ==> keys0[j] != key@,
            decreases self.session_keys@.len() - i,
        {
            if self.session_keys[i] == *key {
                assert(keys0[i as int] == key@);
                assert(keys0.contains(key@));
                return i;
            }
            i = i + 1;
        }
        assert(!keys0.contains(key@));
        proof {
            lemma_bucket_map_len(keys0, buckets0);
        }
        let cap = self.per_minute_capacity;
        let fresh = TokenBucket::new(cap, now_ms, SESSION_SOURCE_WINDOW_MS);
        if self.session_keys.len() >= MAX_TRACKED_SOURCES {
            let v = lru_index(&self.session_buckets);
            let ghost victim = keys0[v as int];
            proof {
                lemma_bucket_map_remove(keys0, buckets0, v as int);
                lemma_bucket_map_index(keys0, buckets0, v as int);
                assert forall|k: Seq<char>|
                    bucket_map(keys0, buckets0).contains_key(k) implies bucket_map(keys0, buckets0)[victim].last_seen_ms
                        <= bucket_map(keys0, buckets0)[k].last_seen_ms by {
                    let j = choose|j: int| 0 <= j < keys0.len() && keys0[j] == k;
                    lemma_bucket_map_index(keys0, buckets0, j);
                }
            }
            self.session_keys.remove(v);
            self.session_buckets.remove(v);
            assert(self.session_key_views() =~= keys0.remove(v as int));
            let ghost keys1 = self.session_key_views();
            let ghost buckets1 = self.session_buckets@;
            self.session_keys.push(key.clone());
            self.session_buckets.push(fresh);
            assert(self.session_key_views() =~= keys1.push(key@));
            proof {
                lemma_bucket_map_push(keys1, buckets1, key@, fresh);
                assert(bucket_map(keys0, buckets0).remove(victim).insert(key@, fresh) == self@.sessions);
            }
        } else {
            self.session_keys.push(key.clone());
            self.session_buckets.push(fresh);
            assert(self.session_key_views() =~= keys0.push(key@));
            proof {
                lemma_bucket_map_push(keys0, buckets0, key@, fresh);
            }
        }
        self.session_keys.len() - 1
    }

    /// Track `key` in the per-source map, returning its index: found, or entered with a fresh
    /// bucket after evicting a least-recently-seen source when the map is full.
    fn admit_source(&mut self, key: IpAddr, now_ms: u64) -> (i: usize)
        requires
            old(self).wf(),
        ensures
            final(self).wf(),
            i < final(self).source_keys@.len(),
            final(self).source_keys@[i as int] == key,
            admitted(
                old(self)@.sources,
                final(self)@.sources,
                key,
                spec_fresh(old(self).per_minute_capacity, now_ms, SESSION_SOURCE_WINDOW_MS),
            ),
            final(self).per_minute_capacity == old(self).per_minute_capacity,
            final(self).global_capacity == old(self).global_capacity,
            final(self).session_keys == old(self).session_keys,
            final(self).session_buckets == old(self).session_buckets,
            final(self).global == old(self).global,
    {
        let ghost keys0 = self.source_keys@;
        let ghost buckets0 = self.source_buckets@;
        let mut i: usize = 0;
        while i < self.source_keys.len()
            invariant
                0 <= i <= self.source_keys@.len(),
                self.wf(),
                self.source_keys@ == keys0,
                forall|j: int| 0 <= j < i ==> keys0[j] != key,
            decreases self.source_keys@.len() - i,
        {
            if ip_eq(&self.source_keys[i], &key) {
                return i;
            }
            i = i + 1;
        }
        assert(!keys0.contains(key));
        proof {
            lemma_bucket_map_len(keys0, buckets0);
        }
        let cap = self.per_minute_capacity;
        let fresh = TokenBucket::new(cap, now_ms, SESSION_SOURCE_WINDOW_MS);
        if self.source_keys.len() >= MAX_TRACKED_SOURCES {
            let v = lru_index(&self.source_buckets);
            let ghost victim = keys0[v as int];
            proof {
                lemma_bucket_map_remove(keys0, buckets0, v as int);
                lemma_bucket_map_index(keys0, buckets0, v as int);
                assert forall|k: IpAddr|
                    bucket_map(keys0, buckets0).contains_key(k) implies bucket_map(keys0, buckets0)[victim].last_seen_ms
                        <= bucket_map(keys0, buckets0)[k].last_seen_ms by {
                    let j = choose|j: int| 0 <= j < keys0.len() && keys0[j] == k;
                    lemma_bucket_map_index(keys0, buckets0, j);
                }
            }
            self.source_keys.remove(v);
            self.source_buckets.remove(v);
            let ghost keys1 = self.source_keys@;
            let ghost buckets1 = self.source_buckets@;
            self.source_keys.push(key);
            self.source_buckets.push(fresh);
            proof {
                lemma_bucket_map_push(keys1, buckets1, key, fresh);
                assert(bucket_map(keys0, buckets0).remove(victim).insert(key, fresh) == self@.sources);
            }
        } else {
            self.source_keys.push(key);
            self.source_buckets.push(fresh);
            proof {
                lemma_bucket_map_push(keys0, buckets0, key, fresh);
            }
        }
        self.source_keys.len() - 1
    }
}

impl ObserveLimiter {
    /// Whether `session` (the requester's authenticated peer id) may get another answer now,
    /// given the connection's transport-observed `source` IP (folded first).
    ///
    /// The per-session and per-source budgets are checked BEFORE the global one, and a token is
    /// spent in each only when all three permit: a request refused by a narrower budget never
    /// touches the global one, so one abuser cannot drain the budget shared by everyone. A
    /// refused session or source is still marked as seen, so an actively asking caller is not the
    /// first evicted. See [`allow_outcome`] for the exact effect on the state.
    pub fn allow(&mut self, session: &str, source: IpAddr, now_ms: u64) -> (allowed: bool)
        requires
            old(self).wf(),
        ensures
            final(self).wf(),
            allow_outcome(old(self)@, final(self)@, session@, spec_fold_ip(source), now_ms, allowed),
    {
        let folded = fold_ip(source);
        let key = session.to_owned();
        let cap = self.per_minute_capacity;
        let ghost s0 = self@;
        let si = self.admit_session(&key, now_ms);
        let ghost s1 = self@;
        let ghost skeys = self.session_key_views();
        let ghost sbuckets = self.session_buckets@;
        let sb = self.session_buckets[si];
        proof {
            lemma_bucket_map_index(skeys, sbuckets, si as int);
        }
        if !sb.peek(now_ms, SESSION_SOURCE_WINDOW_MS) {
            let mut touched = sb;
            touched.last_seen_ms = now_ms;
            self.session_buckets.set(si, touched);
            proof {
                lemma_bucket_map_update(skeys, sbuckets, si as int, touched);
                assert(touched == spec_touch(sb, now_ms));
                assert(self@.sessions == s1.sessions.insert(session@, spec_touch(sb, now_ms)));
                assert(s1.sessions[session@] == sb);
                assert(admitted(s0.sessions, s1.sessions, session@, spec_fresh(cap, now_ms, SESSION_SOURCE_WINDOW_MS)));
                assert(self@.sources == s0.sources);
                assert(self@.global == s0.global);
                assert(self.wf());
                lemma_outcome_session_refused(s0, self@, session@, spec_fold_ip(source), now_ms, s1.sessions);
            }
            return false;
        }
        let ri = self.admit_source(folded, now_ms);
        let ghost s2 = self@;
        let ghost rkeys = self.source_keys@;
        let ghost rbuckets = self.source_buckets@;
        let rb = self.source_buckets[ri];
        proof {
            lemma_bucket_map_index(rkeys, rbuckets, ri as int);
        }
        if !rb.peek(now_ms, SESSION_SOURCE_WINDOW_MS) {
            let mut touched = rb;
            touched.last_seen_ms = now_ms;
            self.source_buckets.set(ri, touched);
            proof {
                lemma_bucket_map_update(rkeys, rbuckets, ri as int, touched);
                assert(touched == spec_touch(rb, now_ms));
                lemma_outcome_past_session(s0, self@, session@, spec_fold_ip(source), now_ms, false, s1.sessions, s2.sources);
            }
            return false;
        }
        if !self.global.peek(now_ms, GLOBAL_WINDOW_MS) {
            proof {
                lemma_outcome_past_session(s0, self@, session@, spec_fold_ip(source), now_ms, false, s1.sessions, s2.sources);
            }
            return false;
        }
        let mut sb2 = sb;
        sb2.spend(cap, now_ms, SESSION_SOURCE_WINDOW_MS);
        self.session_buckets.set(si, sb2);
        let mut rb2 = rb;
        rb2.spend(cap, now_ms, SESSION_SOURCE_WINDOW_MS);
        self.source_buckets.set(ri, rb2);
        let gcap = self.global_capacity;
        self.global.spend(gcap, now_ms, GLOBAL_WINDOW_MS);
        proof {
            lemma_bucket_map_update(skeys, sbuckets, si as int, sb2);
            lemma_bucket_map_update(rkeys, rbuckets, ri as int, rb2);
            lemma_outcome_past_session(s0, self@, session@, spec_fold_ip(source), now_ms, true, s1.sessions, s2.sources);
        }
        true
    }
}

proof fn lemma_outcome_session_refused(
    before: LimiterView,
    after: LimiterView,
    session: Seq<char>,
    source: IpAddr,
    now_ms: u64,
    sessions: Map<Seq<char>, TokenBucket>,
)
    requires
        admitted(
            before.sessions,
            sessions,
            session,
            spec_fresh(before.per_minute_capacity, now_ms, SESSION_SOURCE_WINDOW_MS),
        ),
        !spec_peek(sessions[session], now_ms, SESSION_SOURCE_WINDOW_MS),
        after.per_minute_capacity == before.per_minute_capacity,
        after.global_capacity == before.global_capacity,
        after.sessions == sessions.insert(session, spec_touch(sessions[session], now_ms)),
        after.sources == before.sources,
        after.global == before.global,
    ensures
        allow_outcome(before, after, session, source, now_ms, false),
{
}

proof fn lemma_outcome_past_session(
    before: LimiterView,
    after: LimiterView,
    session: Seq<char>,
    source: IpAddr,
    now_ms: u64,
    allowed: bool,
    sessions: Map<Seq<char>, TokenBucket>,
    sources: Map<IpAddr, TokenBucket>,
)
    requires
        admitted(
            before.sessions,
            sessions,
            session,
            spec_fresh(before.per_minute_capacity, now_ms, SESSION_SOURCE_WINDOW_MS),
        ),
        admitted(
            before.sources,
            sources,
            source,
            spec_fresh(before.per_minute_capacity, now_ms, SESSION_SOURCE_WINDOW_MS),
        ),
        spec_peek(sessions[session], now_ms, SESSION_SOURCE_WINDOW_MS),
        after.per_minute_capacity == before.per_minute_capacity,
        after.global_capacity == before.global_capacity,
        ({
            let cap = before.per_minute_capacity;
            let w = SESSION_SOURCE_WINDOW_MS;
            let sb = sessions[session];
            let rb = sources[source];
            if !spec_peek(rb, now_ms, w) {
                &&& !allowed
                &&& after.sessions == sessions
                &&& after.sources == sources.insert(source, spec_touch(rb, now_ms))
                &&& after.global == before.global
            } else if !spec_peek(before.global, now_ms, GLOBAL_WINDOW_MS) {
                &&& !allowed
                &&& after.sessions == sessions
                &&& after.sources == sources
                &&& after.global == before.global
            } else {
                &&& allowed
                &&& after.sessions == sessions.insert(session, spec_spend(sb, cap, now_ms, w))
                &&& after.sources == sources.insert(source, spec_spend(rb, cap, now_ms, w))
                &&& after.global == spec_spend(
                    before.global,
                    before.global_capacity,
                    now_ms,
                    GLOBAL_WINDOW_MS,
                )
            }
        }),
    ensures
        allow_outcome(before, after, session, source, now_ms, allowed),
{
}

/// A refused request spends nothing in the global budget, and an allowed one spends exactly one
/// token in each of the three.
pub proof fn lemma_refusal_spends_no_global_token(
    before: LimiterView,
    after: LimiterView,
    session: Seq<char>,
    source: IpAddr,
    now_ms: u64,
    allowed: bool,
)
    requires
        allow_outcome(before, after, session, source, now_ms, allowed),
    ensures
        !allowed ==> after.global == before.global,
        allowed ==> after.global == spec_spend(
            before.global,
            before.global_capacity,
            now_ms,
            GLOBAL_WINDOW_MS,
        ),
        allowed ==> after.sessions.contains_key(session) && after.sources.contains_key(source),
{
}

// ---------------------------------------------------------------------------------------------
// Lemmas on parallel key/bucket sequences.
// ---------------------------------------------------------------------------------------------
proof fn lemma_bucket_map_index<K>(keys: Seq<K>, buckets: Seq<TokenBucket>, i: int)
    requires
        keys.no_duplicates(),
        0 <= i < keys.len(),
    ensures
        bucket_map(keys, buckets).contains_key(keys[i]),
        bucket_map(keys, buckets)[keys[i]] == buckets[i],
{
    assert(keys.contains(keys[i]));
    let j = choose|j: int| 0 <= j < keys.len() && keys[j] == keys[i];
    assert(j == i);
}

proof fn lemma_bucket_map_len<K>(keys: Seq<K>, buckets: Seq<TokenBucket>)
    requires
        keys.no_duplicates(),
    ensures
        bucket_map(keys, buckets).dom() == keys.to_set(),
        bucket_map(keys, buckets).len() == keys.len(),
{
    assert(bucket_map(keys, buckets).dom() =~= keys.to_set());
    keys.unique_seq_to_set();
}

proof fn lemma_bucket_map_update<K>(keys: Seq<K>, buckets: Seq<TokenBucket>, i: int, b: TokenBucket)
    requires
        keys.no_duplicates(),
        keys.len() == buckets.len(),
        0 <= i < keys.len(),
    ensures
        bucket_map(keys, buckets.update(i, b)) == bucket_map(keys, buckets).insert(keys[i], b),
{
    let m1 = bucket_map(keys, buckets.update(i, b));
    let m2 = bucket_map(keys, buckets).insert(keys[i], b);
    assert forall|k: K| m1.contains_key(k) implies m1[k] == m2[k] by {
        let j = choose|j: int| 0 <= j < keys.len() && keys[j] == k;
        lemma_bucket_map_index(keys, buckets, j);
        lemma_bucket_map_index(keys, buckets.update(i, b), j);
    }
    assert(m1 =~= m2);
}

proof fn lemma_bucket_map_push<K>(keys: Seq<K>, buckets: Seq<TokenBucket>, k: K, b: TokenBucket)
    requires
        keys.no_duplicates(),
        keys.len() == buckets.len(),
        !keys.contains(k),
    ensures
        keys.push(k).no_duplicates(),
        bucket_map(keys.push(k), buckets.push(b)) == bucket_map(keys, buckets).insert(k, b),
{
    let nk = keys.push(k);
    let nb = buckets.push(b);
    assert(nk.no_duplicates()) by {
        assert forall|i: int, j: int| 0 <= i < nk.len() && 0 <= j < nk.len() && i != j implies nk[i]
            != nk[j] by {
            if i < keys.len() && j < keys.len() {
            } else if i == keys.len() {
                assert(keys.contains(nk[j]) || j == keys.len());
            } else {
                assert(keys.contains(nk[i]));
            }
        }
    }
    let m1 = bucket_map(nk, nb);
    let m2 = bucket_map(keys, buckets).insert(k, b);
    assert forall|x: K| m1.contains_key(x) <==> m2.contains_key(x) by {
        if nk.contains(x) {
            let j = choose|j: int| 0 <= j < nk.len() && nk[j] == x;
            if j < keys.len() {
                assert(keys.contains(x));
            }
        }
        if keys.contains(x) {
            let j = choose|j: int| 0 <= j < keys.len() && keys[j] == x;
            assert(nk[j] == x);
        }
        if x == k {
            assert(nk[keys.len() as int] == k);
        }
    }
    assert forall|x: K| m1.contains_key(x) implies m1[x] == m2[x] by {
        let j = choose|j: int| 0 <= j < nk.len() && nk[j] == x;
        lemma_bucket_map_index(nk, nb, j);
        if j < keys.len() {
            lemma_bucket_map_index(keys, buckets, j);
        }
    }
    assert(m1 =~= m2);
}

proof fn lemma_bucket_map_remove<K>(keys: Seq<K>, buckets: Seq<TokenBucket>, i: int)
    requires
        keys.no_duplicates(),
        keys.len() == buckets.len(),
        0 <= i < keys.len(),
    ensures
        keys.remove(i).no_duplicates(),
        !keys.remove(i).contains(keys[i]),
        bucket_map(keys.remove(i), buckets.remove(i)) == bucket_map(keys, buckets).remove(keys[i]),
{
    let nk = keys.remove(i);
    let nb = buckets.remove(i);
    assert forall|a: int, c: int| 0 <= a < nk.len() && 0 <= c < nk.len() && a != c implies nk[a]
        != nk[c] by {
        let a2 = if a < i {
            a
        } else {
            a + 1
        };
        let c2 = if c < i {
            c
        } else {
            c + 1
        };
        assert(nk[a] == keys[a2] && nk[c] == keys[c2]);
    }
    assert(!nk.contains(keys[i])) by {
        if nk.contains(keys[i]) {
            let a = choose|a: int| 0 <= a < nk.len() && nk[a] == keys[i];
            let a2 = if a < i {
                a
            } else {
                a + 1
            };
            assert(nk[a] == keys[a2]);
        }
    }
    let m1 = bucket_map(nk, nb);
    let m2 = bucket_map(keys, buckets).remove(keys[i]);
    assert forall|x: K| m1.contains_key(x) <==> m2.contains_key(x) by {
        if nk.contains(x) {
            let a = choose|a: int| 0 <= a < nk.len() && nk[a] == x;
            let a2 = if a < i {
                a
            } else {
                a + 1
            };
            assert(nk[a] == keys[a2]);
            assert(keys.contains(x));
        }
        if keys.contains(x) && x != keys[i] {
            let a = choose|a: int| 0 <= a < keys.len() && keys[a] == x;
            let a2 = if a < i {
                a
            } else {
                a - 1
            };
            assert(nk[a2] == x);
        }
    }
    assert forall|x: K| m1.contains_key(x) implies m1[x] == m2[x] by {
        let a = choose|a: int| 0 <= a < nk.len() && nk[a] == x;
        let a2 = if a < i {
            a
        } else {
            a + 1
        };
        lemma_bucket_map_index(nk, nb, a);
        lemma_bucket_map_index(keys, buckets, a2);
    }
    assert(m1 =~= m2);
}

/// The bucket after `n` spends at `now_ms`.
pub open spec fn spend_times(b: TokenBucket, capacity: u32, now_ms: u64, window_ms: u64, n: nat) -> TokenBucket
    decreases n,
{
    if n == 0 {
        b
    } else {
        spec_spend(spend_times(b, capacity, now_ms, window_ms, (n - 1) as nat), capacity, now_ms, window_ms)
    }
}

/// A spend moves the bucket into the window of its own time, and within one window nothing
/// refills: after a spend at `t1`, an ask at any `t2` in the same window finds a token exactly
/// when the spend left one.
pub proof fn lemma_no_refill_within_a_window(
    b: TokenBucket,
    capacity: u32,
    window_ms: u64,
    t1: u64,
    t2: u64,
)
    requires
        window_ms > 0,
        t1 / window_ms == t2 / window_ms,
    ensures
        spec_spend(b, capacity, t1, window_ms).window == t1 / window_ms,
        spec_peek(spec_spend(b, capacity, t1, window_ms), t2, window_ms) <==> spec_spend(
            b,
            capacity,
            t1,
            window_ms,
        ).tokens > 0,
{
}

/// A bucket of capacity `c` (holding at most `c` tokens) is exhausted by `c` spends within one
/// window, whatever window it was last used in: at most `c` requests pass per window.
pub proof fn lemma_capacity_spends_exhaust_a_window(
    b: TokenBucket,
    capacity: u32,
    window_ms: u64,
    now_ms: u64,
    later_ms: u64,
)
    requires
        window_ms > 0,
        b.tokens <= capacity,
        capacity > 0,
        now_ms / window_ms == later_ms / window_ms,
    ensures
        !spec_peek(spend_times(b, capacity, now_ms, window_ms, capacity as nat), later_ms, window_ms),
{
    lemma_spend_times(b, capacity, window_ms, now_ms, capacity as nat);
}

/// After `n >= 1` spends at `now_ms` the bucket is in `now_ms`'s window with `n` fewer tokens
/// than it started that window with (never below zero).
proof fn lemma_spend_times(b: TokenBucket, capacity: u32, window_ms: u64, now_ms: u64, n: nat)
    requires
        window_ms > 0,
        n >= 1,
    ensures
        ({
            let start: int = if b.window == now_ms / window_ms {
                b.tokens as int
            } else {
                capacity as int
            };
            let r = spend_times(b, capacity, now_ms, window_ms, n);
            &&& r.window == now_ms / window_ms
            &&& r.tokens == if start - n >= 0 { start - n } else { 0 }
        }),
    decreases n,
{
    let prev = spend_times(b, capacity, now_ms, window_ms, (n - 1) as nat);
    assert(spend_times(b, capacity, now_ms, window_ms, n) == spec_spend(
        prev,
        capacity,
        now_ms,
        window_ms,
    ));
    if n > 1 {
        lemma_spend_times(b, capacity, window_ms, now_ms, (n - 1) as nat);
    } else {
        assert(prev == b);
    }
}

/// The session bucket `allow` admits a key with: the tracked one when the key is tracked, a
/// fresh one otherwise.
proof fn lemma_admitted_bucket<K>(
    before: Map<K, TokenBucket>,
    after: Map<K, TokenBucket>,
    key: K,
    fresh: TokenBucket,
)
    requires
        admitted(before, after, key, fresh),
    ensures
        after.contains_key(key),
        after[key] == if before.contains_key(key) {
            before[key]
        } else {
            fresh
        },
{
    if !before.contains_key(key) && before.len() >= MAX_TRACKED_SOURCES {
        let victim = choose|victim: K|
            #![trigger before.remove(victim)]
            before.contains_key(victim) && (forall|k: K|
                before.contains_key(k) ==> before[victim].last_seen_ms <= before[k].last_seen_ms)
                && after == before.remove(victim).insert(key, fresh);
        assert(after == before.remove(victim).insert(key, fresh));
    }
}

/// An admitted request spends one of its session's tokens in the window of its own time: the
/// session's bucket afterwards belongs to `now_ms`'s window and holds one token fewer than the
/// session had left in that window (a full budget when the window is new or the session was
/// not tracked), never below zero; with a non-zero capacity a token was there to spend.
pub proof fn lemma_admitted_request_spends_a_session_token(
    before: LimiterView,
    after: LimiterView,
    session: Seq<char>,
    source: IpAddr,
    now_ms: u64,
)
    requires
        allow_outcome(before, after, session, source, now_ms, true),
    ensures
        after.sessions.contains_key(session),
        after.sessions[session].window == now_ms / SESSION_SOURCE_WINDOW_MS,
        ({
            let left: int = if before.sessions.contains_key(session)
                && before.sessions[session].window == now_ms / SESSION_SOURCE_WINDOW_MS {
                before.sessions[session].tokens as int
            } else {
                before.per_minute_capacity as int
            };
            &&& before.per_minute_capacity > 0 ==> left > 0
            &&& after.sessions[session].tokens == if left > 0 {
                left - 1
            } else {
                0
            }
        }),
{
    let cap = before.per_minute_capacity;
    let w = SESSION_SOURCE_WINDOW_MS;
    let fresh = spec_fresh(cap, now_ms, w);
    let sessions = choose|sessions: Map<Seq<char>, TokenBucket>|
        #![trigger admitted(before.sessions, sessions, session, fresh)]
        admitted(before.sessions, sessions, session, fresh) && {
            let sb = sessions[session];
            &&& after.per_minute_capacity == before.per_minute_capacity
            &&& after.global_capacity == before.global_capacity
            &&& if !spec_peek(sb, now_ms, w) {
                &&& !true
                &&& after.sessions == sessions.insert(session, spec_touch(sb, now_ms))
                &&& after.sources == before.sources
                &&& after.global == before.global
            } else {
                exists|sources: Map<IpAddr, TokenBucket>|
                    #![trigger admitted(before.sources, sources, source, spec_fresh(cap, now_ms, w))]
                    admitted(before.sources, sources, source, spec_fresh(cap, now_ms, w)) && {
                        let rb = sources[source];
                        if !spec_peek(rb, now_ms, w) {
                            &&& !true
                            &&& after.sessions == sessions
                            &&& after.sources == sources.insert(source, spec_touch(rb, now_ms))
                            &&& after.global == before.global
                        } else if !spec_peek(before.global, now_ms, GLOBAL_WINDOW_MS) {
                            &&& !true
                            &&& after.sessions == sessions
                            &&& after.sources == sources
                            &&& after.global == before.global
                        } else {
                            &&& true
                            &&& after.sessions == sessions.insert(session, spec_spend(sb, cap, now_ms, w))
                            &&& after.sources == sources.insert(source, spec_spend(rb, cap, now_ms, w))
                            &&& after.global == spec_spend(
                                before.global,
                                before.global_capacity,
                                now_ms,
                                GLOBAL_WINDOW_MS,
                            )
                        }
                    }
            }
        };
    lemma_admitted_bucket(before.sessions, sessions, session, fresh);
    let sb = sessions[session];
    assert(spec_peek(sb, now_ms, w));
    assert(after.sessions == sessions.insert(session, spec_spend(sb, cap, now_ms, w)));
}

/// A session whose bucket is spent in the current window is refused for the rest of that
/// window: with its bucket at zero tokens in `now_ms`'s window, `allow` answers `false`. With
/// [`lemma_admitted_request_spends_a_session_token`] this bounds the answers a session gets in
/// any one window, the first or a later one, by the per-minute capacity.
pub proof fn lemma_spent_session_is_refused(
    before: LimiterView,
    after: LimiterView,
    session: Seq<char>,
    source: IpAddr,
    now_ms: u64,
    allowed: bool,
)
    requires
        before.sessions.contains_key(session),
        before.sessions[session].window == now_ms / SESSION_SOURCE_WINDOW_MS,
        before.sessions[session].tokens == 0,
        allow_outcome(before, after, session, source, now_ms, allowed),
    ensures
        !allowed,
{
    let cap = before.per_minute_capacity;
    let w = SESSION_SOURCE_WINDOW_MS;
    let fresh = spec_fresh(cap, now_ms, w);
    let sessions = choose|sessions: Map<Seq<char>, TokenBucket>|
        #![trigger admitted(before.sessions, sessions, session, fresh)]
        admitted(before.sessions, sessions, session, fresh) && {
            let sb = sessions[session];
            &&& after.per_minute_capacity == before.per_minute_capacity
            &&& after.global_capacity == before.global_capacity
            &&& if !spec_peek(sb, now_ms, w) {
                &&& !allowed
                &&& after.sessions == sessions.insert(session, spec_touch(sb, now_ms))
                &&& after.sources == before.sources
                &&& after.global == before.global
            } else {
                exists|sources: Map<IpAddr, TokenBucket>|
                    #![trigger admitted(before.sources, sources, source, spec_fresh(cap, now_ms, w))]
                    admitted(before.sources, sources, source, spec_fresh(cap, now_ms, w)) && {
                        let rb = sources[source];
                        if !spec_peek(rb, now_ms, w) {
                            &&& !allowed
                            &&& after.sessions == sessions
                            &&& after.sources == sources.insert(source, spec_touch(rb, now_ms))
                            &&& after.global == before.global
                        } else if !spec_peek(before.global, now_ms, GLOBAL_WINDOW_MS) {
                            &&& !allowed
                            &&& after.sessions == sessions
                            &&& after.sources == sources
                            &&& after.global == before.global
                        } else {
                            &&& allowed
                            &&& after.sessions == sessions.insert(session, spec_spend(sb, cap, now_ms, w))
                            &&& after.sources == sources.insert(source, spec_spend(rb, cap, now_ms, w))
                            &&& after.global == spec_spend(
                                before.global,
                                before.global_capacity,
                                now_ms,
                                GLOBAL_WINDOW_MS,
                            )
                        }
                    }
            }
        };
    lemma_admitted_bucket(before.sessions, sessions, session, fresh);
    assert(!spec_peek(sessions[session], now_ms, w));
}

} // verus!
