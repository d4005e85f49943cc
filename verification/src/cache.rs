//! Model-session cache: maps a model path to a loaded session handle and
//! the time it was cached, with absolute expiry.
//!
//! The cache is backed by a concurrent `dashmap::DashMap`; its contract
//! here is sequential, stated over the map's entries. An entry older than
//! `CACHE_TIMEOUT_SECS` is treated as absent on lookup and removed; a
//! separate, longer `MAX_SESSION_AGE_SECS` bound drives the periodic
//! sweep. `last_used` is set at installation and *not* refreshed on a
//! hit: expiry is absolute, matching the observed behaviour of this
//! subsystem.
//!
//! Session construction lives with the caller: on a miss the caller
//! builds the session and installs its handle. The check-then-act
//! discipline is captured by `lemma_install_then_lookup`: after one
//! installation, every caller that re-checks within the timeout receives
//! the installed handle and leaves the cache unchanged, so no second
//! construction happens.

use vstd::prelude::*;

verus! {

/// Seconds a cached session stays servable after installation.
pub const CACHE_TIMEOUT_SECS: u64 = 3600;

/// Seconds after which the periodic sweep removes a session outright.
pub const MAX_SESSION_AGE_SECS: u64 = 14400;

/// One cache entry: an opaque session handle and the time it was cached,
/// in seconds.
#[derive(Clone, Copy, Debug, PartialEq, Eq, Structural)]
pub struct CachedSession {
    pub session: u64,
    pub last_used: u64,
}

#[verifier::external_type_specification]
#[verifier::external_body]
#[verifier::reject_recursive_types(K)]
#[verifier::reject_recursive_types(V)]
#[verifier::reject_recursive_types(S)]
pub struct ExDashMap<K, V, S>(dashmap::DashMap<K, V, S>);

/// The entries a session map holds: model path to
/// `(session handle, cached-at time)`.
pub uninterp spec fn session_map_entries(m: dashmap::DashMap<String, (u64, u64)>) -> Map<
    Seq<char>,
    (u64, u64),
>;

/// An entry cached at `last_used` is still live at `now` for a lifetime
/// of `age` seconds. A clock that appears to run backwards counts as
/// elapsed time zero.
pub open spec fn spec_session_live(last_used: u64, now: u64, age: u64) -> bool {
    now < last_used + age
}

/// Decides `spec_session_live` without overflowing.
pub fn session_live(last_used: u64, now: u64, age: u64) -> (r: bool)
    ensures
        r == spec_session_live(last_used, now, age),
{
    if now >= last_used {
        now - last_used < age
    } else {
        true
    }
}

/// The empty entry map.
pub open spec fn empty_entries() -> Map<Seq<char>, (u64, u64)> {
    Map::empty()
}

/// Relies on `dashmap::DashMap::new`: a freshly built map holds nothing.
#[verifier::external_body]
fn dm_new() -> (m: dashmap::DashMap<String, (u64, u64)>)
    ensures
        session_map_entries(m) == empty_entries(),
{
    dashmap::DashMap::new()
}

/// Relies on `dashmap::DashMap::get`: returns the value stored under the
/// key, if any. The copy is taken out of the returned guard.
#[verifier::external_body]
fn dm_get(m: &dashmap::DashMap<String, (u64, u64)>, key: &String) -> (r: Option<(u64, u64)>)
    ensures
        r == if session_map_entries(*m).dom().contains(key@) {
            Some(session_map_entries(*m)[key@])
        } else {
            None::<(u64, u64)>
        },
{
    m.get(key).map(|entry| *entry)
}

/// Relies on `dashmap::DashMap::insert`: stores the value under the key,
/// replacing any previous value.
#[verifier::external_body]
fn dm_insert(m: &mut dashmap::DashMap<String, (u64, u64)>, key: &String, value: (u64, u64))
    ensures
        session_map_entries(*final(m)) == session_map_entries(*old(m)).insert(key@, value),
{
    m.insert(key.clone(), value);
}

/// Relies on `dashmap::DashMap::remove`: deletes the entry under the
/// key, if any.
#[verifier::external_body]
fn dm_remove(m: &mut dashmap::DashMap<String, (u64, u64)>, key: &String)
    ensures
        session_map_entries(*final(m)) == session_map_entries(*old(m)).remove(key@),
{
    m.remove(key);
}

/// Relies on `dashmap::DashMap::clear`: deletes every entry.
#[verifier::external_body]
fn dm_clear(m: &mut dashmap::DashMap<String, (u64, u64)>)
    ensures
        session_map_entries(*final(m)) == empty_entries(),
{
    m.clear();
}

/// Relies on `dashmap::DashMap::retain`: keeps exactly the entries whose
/// cached-at time is still live at `now` for a lifetime of `age`
/// seconds, leaving kept values unchanged.
#[verifier::external_body]
fn dm_retain_live(m: &mut dashmap::DashMap<String, (u64, u64)>, now: u64, age: u64)
    ensures
        forall|k: Seq<char>|
            session_map_entries(*final(m)).dom().contains(k) <==> (session_map_entries(
                *old(m),
            ).dom().contains(k) && spec_session_live(
                session_map_entries(*old(m))[k].1,
                now,
                age,
            )),
        forall|k: Seq<char>|
            session_map_entries(*final(m)).dom().contains(k) ==> session_map_entries(*final(m))[k]
                == session_map_entries(*old(m))[k],
{
    m.retain(|_key, value| session_live(value.1, now, age));
}

/// The dependency-injected session cache.
pub struct SessionCache {
    map: dashmap::DashMap<String, (u64, u64)>,
}

/// Turns a raw entry pair into a `CachedSession`.
pub open spec fn to_cached(p: (u64, u64)) -> CachedSession {
    CachedSession { session: p.0, last_used: p.1 }
}

/// What one lookup at `now` returns on a cache state: the stored handle
/// when a live entry exists, nothing otherwise.
pub open spec fn spec_lookup(m: Map<Seq<char>, CachedSession>, key: Seq<char>, now: u64) -> Option<
    u64,
> {
    if m.dom().contains(key) && spec_session_live(m[key].last_used, now, CACHE_TIMEOUT_SECS) {
        Some(m[key].session)
    } else {
        None
    }
}

/// The cache state after one lookup at `now`: a stale entry found under
/// the key is removed, anything else stays.
pub open spec fn spec_after_lookup(
    m: Map<Seq<char>, CachedSession>,
    key: Seq<char>,
    now: u64,
) -> Map<Seq<char>, CachedSession> {
    if m.dom().contains(key) && !spec_session_live(m[key].last_used, now, CACHE_TIMEOUT_SECS) {
        m.remove(key)
    } else {
        m
    }
}

/// The cache state after installing a freshly built session at `now`.
pub open spec fn spec_install(
    m: Map<Seq<char>, CachedSession>,
    key: Seq<char>,
    session: u64,
    now: u64,
) -> Map<Seq<char>, CachedSession> {
    m.insert(key, CachedSession { session, last_used: now })
}

/// Once one caller has installed a session, every caller that re-checks
/// the cache within the timeout receives that same handle, and the
/// lookup leaves the cache unchanged: under the miss-then-install
/// discipline, concurrent demand for one identifier constructs exactly
/// one session.
pub proof fn lemma_install_then_lookup(
    m: Map<Seq<char>, CachedSession>,
    key: Seq<char>,
    session: u64,
    now: u64,
    later: u64,
)
    requires
        later < now + CACHE_TIMEOUT_SECS,
    ensures
        spec_lookup(spec_install(m, key, session, now), key, later) == Some(session),
        spec_after_lookup(spec_install(m, key, session, now), key, later) == spec_install(
            m,
            key,
            session,
            now,
        ),
{
}

impl SessionCache {
    /// The current entries, as a map from model path to cached session.
    pub closed spec fn sessions(&self) -> Map<Seq<char>, CachedSession> {
        session_map_entries(self.map).map_values(|p: (u64, u64)| to_cached(p))
    }

    /// Builds an empty cache.
    pub fn new() -> (c: SessionCache)
        ensures
            c.sessions() == Map::<Seq<char>, CachedSession>::empty(),
    {
        let c = SessionCache { map: dm_new() };
        proof {
            assert(c.sessions() =~= Map::<Seq<char>, CachedSession>::empty());
        }
        c
    }

    /// Looks the model path up at time `now`. A live entry's handle is
    /// returned and the cache is left as it was; a stale entry is
    /// removed and the lookup misses; a miss returns nothing. The entry's
    /// cached-at time is not refreshed by a hit: expiry is absolute.
    pub fn get_session(&mut self, model_path: &String, now: u64) -> (r: Option<u64>)
        ensures
            r == spec_lookup(old(self).sessions(), model_path@, now),
            final(self).sessions() == spec_after_lookup(old(self).sessions(), model_path@, now),
    {
        let found = dm_get(&self.map, model_path);
        match found {
            Some(entry) => {
                if session_live(entry.1, now, CACHE_TIMEOUT_SECS) {
                    Some(entry.0)
                } else {
                    dm_remove(&mut self.map, model_path);
                    proof {
                        assert(self.sessions() =~= spec_after_lookup(
                            old(self).sessions(),
                            model_path@,
                            now,
                        ));
                    }
                    None
                }
            },
            None => None,
        }
    }

    /// Installs a freshly constructed session handle for the model path,
    /// cached at time `now`. A failed construction installs nothing: the
    /// caller simply never calls this.
    pub fn install_session(&mut self, model_path: &String, session: u64, now: u64)
        ensures
            final(self).sessions() == spec_install(old(self).sessions(), model_path@, session, now),
    {
        dm_insert(&mut self.map, model_path, (session, now));
        proof {
            assert(self.sessions() =~= spec_install(old(self).sessions(), model_path@, session, now));
        }
    }

    /// Empties the cache entirely.
    pub fn cleanup_session_cache(&mut self)
        ensures
            final(self).sessions() == Map::<Seq<char>, CachedSession>::empty(),
    {
        dm_clear(&mut self.map);
        proof {
            assert(self.sessions() =~= Map::<Seq<char>, CachedSession>::empty());
        }
    }

    /// The periodic sweep: drops every entry older than the maximum
    /// session age, keeping the rest untouched.
    pub fn cleanup_expired_sessions(&mut self, now: u64)
        ensures
            forall|k: Seq<char>|
                final(self).sessions().dom().contains(k) <==> (old(
                    self,
                ).sessions().dom().contains(k) && spec_session_live(
                    old(self).sessions()[k].last_used,
                    now,
                    MAX_SESSION_AGE_SECS,
                )),
            forall|k: Seq<char>|
                final(self).sessions().dom().contains(k) ==> final(self).sessions()[k] == old(
                    self,
                ).sessions()[k],
    {
        dm_retain_live(&mut self.map, now, MAX_SESSION_AGE_SECS);
    }
}

} // verus!
