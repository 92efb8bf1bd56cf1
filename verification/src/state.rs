//! The state of the proxy: its shards, and the sessions, connections, buffered
//! events and wake attempts of its clients.
//!
//! Points in time are nanoseconds since the state was made.
use crate::cache::Guilds;
use crate::clock::{instant_now, nanos_since, time_at};
use crate::json::{JsonObject, JsonTree};
use crate::session_id::{
    is_session_id, lemma_numbered_id_free, numbered_id, numbered_session_id, random_session_id,
};
use crate::string_map::{lists_entries, StringMap};
use std::collections::{HashSet, VecDeque};
use std::sync::Arc;
use std::time::Instant;
use vstd::prelude::*;

verus! {

/// How long a session is kept after its last use, in nanoseconds: 30 minutes.
pub const SESSION_TTL_NANOS: u64 = 1_800_000_000_000;

/// How many events are buffered for a client that is not connected.
pub const OFFLINE_EVENT_BUFFER_LIMIT: usize = 200;

/// How many random session ids are tried before the free one of the lowest
/// number is taken.
const SESSION_ID_DRAWS: u128 = 0xffff_ffff_ffff_ffff_ffff_ffff_ffff_ffff;

/// The sequence number of a payload, and where in the payload it stands.
#[derive(Clone, Copy)]
pub struct SequenceInfo {
    pub value: u64,
    pub start: usize,
    pub end: usize,
}

/// An event kept for a client that is not connected.
pub struct BufferedClientEvent {
    pub payload: String,
    pub sequence: Option<SequenceInfo>,
    pub guild_id: Option<u64>,
}

impl Clone for BufferedClientEvent {
    fn clone(&self) -> (r: BufferedClientEvent)
        ensures
            r == *self,
    {
        BufferedClientEvent {
            payload: self.payload.clone(),
            sequence: self.sequence,
            guild_id: self.guild_id,
        }
    }
}

/// The READY state of a shard.
pub struct Ready {
    payload: Option<JsonObject>,
}

impl Ready {
    /// The READY payload, where it has come.
    pub closed spec fn view(self) -> Option<Map<Seq<char>, JsonTree>> {
        match self.payload {
            Some(payload) => Some(payload@),
            None => None,
        }
    }

    /// The state before the first READY payload.
    pub fn new() -> (r: Ready)
        ensures
            r@ is None,
    {
        Ready { payload: None }
    }

    /// Whether the READY payload has come.
    pub fn is_ready(&self) -> (r: bool)
        ensures
            r == self@ is Some,
    {
        self.payload.is_some()
    }

    /// The READY payload has come.
    pub fn set_ready(&mut self, payload: JsonObject)
        ensures
            final(self)@ == Some(payload@),
    {
        self.payload = Some(payload);
    }

    /// The shard has to wait for a READY payload again.
    pub fn set_not_ready(&mut self)
        ensures
            final(self)@ is None,
    {
        self.payload = None;
    }

    /// What a waiter gets: a copy of the READY payload, or nothing while it has
    /// to wait on.
    pub fn payload(&self) -> (r: Option<JsonObject>)
        ensures
            match r {
                Some(payload) => self@ == Some(payload@),
                None => self@ is None,
            },
    {
        match &self.payload {
            Some(payload) => Some(payload.clone()),
            None => None,
        }
    }
}

/// State of a single shard.
pub struct Shard {
    /// ID of this shard.
    pub id: u32,
    /// READY state of this shard.
    pub ready: Ready,
    /// Cache for guilds on this shard.
    pub guilds: Guilds,
}

/// As whom a client has opened a session.
#[derive(Debug, Eq, PartialEq)]
pub enum SessionPrincipal {
    /// The holder of the bot's own token.
    BotToken,
    /// A client by its id.
    Client(String),
    /// The holder of a token that was not checked.
    Unvalidated(String),
}

impl Clone for SessionPrincipal {
    fn clone(&self) -> (r: SessionPrincipal)
        ensures
            r == *self,
    {
        match self {
            SessionPrincipal::BotToken => SessionPrincipal::BotToken,
            SessionPrincipal::Client(id) => SessionPrincipal::Client(id.clone()),
            SessionPrincipal::Unvalidated(token) => SessionPrincipal::Unvalidated(token.clone()),
        }
    }
}

/// As whom a client has opened a session, with text for each string.
pub enum PrincipalView {
    BotToken,
    Client(Seq<char>),
    Unvalidated(Seq<char>),
}

impl SessionPrincipal {
    pub open spec fn view(self) -> PrincipalView {
        match self {
            SessionPrincipal::BotToken => PrincipalView::BotToken,
            SessionPrincipal::Client(id) => PrincipalView::Client(id@),
            SessionPrincipal::Unvalidated(token) => PrincipalView::Unvalidated(token@),
        }
    }
}

/// A session initiated by a client.
pub struct Session {
    /// Shard ID that this session is for.
    pub shard_id: u32,
    /// Compression as requested in IDENTIFY.
    pub compress: Option<bool>,
    /// Auth principal used to create this session.
    pub principal: SessionPrincipal,
    /// Guild IDs this client is authorized to receive events for; `None` means
    /// all of them.
    pub authorized_guilds: Option<Arc<HashSet<u64>>>,
    /// Last time this session was used by a client.
    pub last_accessed: u64,
}

/// Calls `Arc::clone`, which gives another handle on the same value.
#[verifier::external_body]
pub(crate) fn share(guilds: &Arc<HashSet<u64>>) -> (r: Arc<HashSet<u64>>)
    ensures
        r == *guilds,
{
    Arc::clone(guilds)
}

impl Clone for Session {
    fn clone(&self) -> (r: Session)
        ensures
            r == *self,
    {
        Session {
            shard_id: self.shard_id,
            compress: self.compress,
            principal: self.principal.clone(),
            authorized_guilds: match &self.authorized_guilds {
                Some(guilds) => Some(share(guilds)),
                None => None,
            },
            last_accessed: self.last_accessed,
        }
    }
}

/// Whether a session is still kept at the time `now`.
pub open spec fn is_live(session: Session, now: u64) -> bool {
    now - session.last_accessed <= SESSION_TTL_NANOS
}

/// The sessions that are still kept at the time `now`.
pub open spec fn live_sessions(sessions: Map<Seq<char>, Session>, now: u64) -> Map<
    Seq<char>,
    Session,
> {
    Map::new(
        |id: Seq<char>| sessions.contains_key(id) && is_live(sessions[id], now),
        |id: Seq<char>| sessions[id],
    )
}

/// A session used at the time `now`.
pub open spec fn touched(session: Session, now: u64) -> Session {
    Session { last_accessed: now, ..session }
}

/// The sessions after one of them was looked up. Those that ran out by the time
/// `now` are gone, and the one that was asked for was used at the time `used`.
pub open spec fn looked_up(
    sessions: Map<Seq<char>, Session>,
    id: Seq<char>,
    now: u64,
    used: u64,
) -> Map<Seq<char>, Session> {
    let live = live_sessions(sessions, now);
    if live.contains_key(id) {
        live.insert(id, touched(live[id], used))
    } else {
        live
    }
}

/// The number of connections of a client.
pub open spec fn connections(active: Map<Seq<char>, usize>, client: Seq<char>) -> nat {
    if active.contains_key(client) {
        active[client] as nat
    } else {
        0
    }
}

/// The connections after a client opened one more.
pub open spec fn connected(active: Map<Seq<char>, usize>, client: Seq<char>) -> Map<
    Seq<char>,
    usize,
> {
    active.insert(client, (connections(active, client) + 1) as usize)
}

/// The connections after a client closed one.
pub open spec fn disconnected(active: Map<Seq<char>, usize>, client: Seq<char>) -> Map<
    Seq<char>,
    usize,
> {
    if connections(active, client) <= 1 {
        active.remove(client)
    } else {
        active.insert(client, (connections(active, client) - 1) as usize)
    }
}

/// The events buffered for a client, oldest first.
pub open spec fn buffered(buffers: Map<Seq<char>, VecDeque<BufferedClientEvent>>, client: Seq<char>)
    -> Seq<BufferedClientEvent> {
    if buffers.contains_key(client) {
        buffers[client]@
    } else {
        Seq::empty()
    }
}

/// A buffer with one more event. A full one loses its oldest.
pub open spec fn event_pushed(
    events: Seq<BufferedClientEvent>,
    event: BufferedClientEvent,
) -> Seq<BufferedClientEvent> {
    if events.len() >= OFFLINE_EVENT_BUFFER_LIMIT {
        events.skip(1).push(event)
    } else {
        events.push(event)
    }
}

/// Whether a client may be woken at the time `now`: it was not tried before, or
/// not for `cooldown` nanoseconds.
pub open spec fn may_wake(
    wakes: Map<Seq<char>, u64>,
    client: Seq<char>,
    cooldown: u128,
    now: u64,
) -> bool {
    wakes.contains_key(client) ==> {
        let passed: int = if now >= wakes[client] {
            now - wakes[client]
        } else {
            0
        };
        passed >= cooldown
    }
}

/// The wake attempts after a client asked to be woken at the time `now`.
pub open spec fn woken(
    wakes: Map<Seq<char>, u64>,
    client: Seq<char>,
    cooldown: u128,
    now: u64,
) -> Map<Seq<char>, u64> {
    if may_wake(wakes, client, cooldown, now) {
        wakes.insert(client, now)
    } else {
        wakes
    }
}

/// The guild of a channel: that of the first shard that knows the channel.
pub open spec fn resolved(shards: Seq<Shard>, channel: u64) -> Option<u64>
    decreases shards.len(),
{
    if shards.len() == 0 {
        None
    } else {
        match shards[0].guilds@.channels.get(channel) {
            Some(guild) => Some(guild),
            None => resolved(shards.skip(1), channel),
        }
    }
}

/// Global state for all shards managed by the proxy.
pub struct Inner {
    /// State of all shards managed by the proxy.
    pub shards: Vec<Shard>,
    /// Total shard count.
    pub shard_count: u32,
    /// All sessions active in the proxy.
    pub sessions: StringMap<Session>,
    /// Active live gateway connections per multi-tenant client.
    pub active_client_connections: StringMap<usize>,
    /// Last buffered dispatch events for disconnected clients.
    pub offline_event_buffers: StringMap<VecDeque<BufferedClientEvent>>,
    /// Last wake attempt per client, to avoid wake storms.
    pub last_wake_attempts: StringMap<u64>,
    /// When the state was made.
    pub started: Instant,
}

impl Inner {
    /// The state of a proxy without clients.
    pub fn new(shards: Vec<Shard>, shard_count: u32) -> (r: Inner)
        ensures
            r.shards == shards,
            r.shard_count == shard_count,
            r.sessions@ == Map::<Seq<char>, Session>::empty(),
            r.active_client_connections@ == Map::<Seq<char>, usize>::empty(),
            r.offline_event_buffers@ == Map::<Seq<char>, VecDeque<BufferedClientEvent>>::empty(),
            r.last_wake_attempts@ == Map::<Seq<char>, u64>::empty(),
    {
        Inner {
            shards,
            shard_count,
            sessions: StringMap::new(),
            active_client_connections: StringMap::new(),
            offline_event_buffers: StringMap::new(),
            last_wake_attempts: StringMap::new(),
            started: instant_now(),
        }
    }

    /// Whether two states differ at most in their sessions.
    pub open spec fn differs_in_sessions(self, other: Inner) -> bool {
        self == Inner { sessions: self.sessions, ..other }
    }

    /// Whether two states differ at most in the connections of their clients.
    pub open spec fn differs_in_connections(self, other: Inner) -> bool {
        self == Inner { active_client_connections: self.active_client_connections, ..other }
    }

    /// Whether two states differ at most in their buffered events.
    pub open spec fn differs_in_buffers(self, other: Inner) -> bool {
        self == Inner { offline_event_buffers: self.offline_event_buffers, ..other }
    }

    /// Whether two states differ at most in their wake attempts.
    pub open spec fn differs_in_wakes(self, other: Inner) -> bool {
        self == Inner { last_wake_attempts: self.last_wake_attempts, ..other }
    }

    /// The time by the clock of the machine, in nanoseconds since the state was made.
    pub fn now(&self) -> (r: u64)
        ensures
            exists|now: Instant| r == #[trigger] time_at(self.started, now),
    {
        nanos_since(&self.started)
    }

    /// Drops the sessions that ran out by the time `now`.
    fn prune_expired_sessions(sessions: &mut StringMap<Session>, now: u64)
        ensures
            final(sessions)@ == live_sessions(old(sessions)@, now),
    {
        let ghost all = sessions@;
        let mut entries = sessions.take_entries();
        let ghost list = entries@;
        assert(list.take(list.len() as int) =~= list);
        while entries.len() > 0
            invariant
                lists_entries(list, all),
                entries@.len() <= list.len(),
                entries@ == list.take(entries@.len() as int),
                forall|id: Seq<char>| #[trigger]
                    sessions@.contains_key(id) ==> all.contains_key(id) && is_live(all[id], now)
                        && sessions@[id] == all[id],
                forall|i: int|
                    entries@.len() <= i < list.len() && is_live((#[trigger] list[i]).1, now)
                        ==> sessions@.contains_key(list[i].0@),
            decreases entries.len(),
        {
            let ghost i = entries@.len() - 1;
            if let Some((id, session)) = entries.pop() {
                assert(list[i] == (id, session));
                if now < session.last_accessed || now - session.last_accessed <= SESSION_TTL_NANOS {
                    sessions.insert(id, session);
                }
            }
            assert(entries@ =~= list.take(i));
        }
        assert(sessions@ =~= live_sessions(all, now));
    }

    /// Get a session by its ID, and keep it from running out.
    pub fn get_session(&mut self, session_id: &str) -> (r: Option<Session>)
        ensures
            exists|now: Instant, used: Instant|
                final(self).sessions@ == looked_up(
                    old(self).sessions@,
                    session_id@,
                    #[trigger] time_at(old(self).started, now),
                    #[trigger] time_at(old(self).started, used),
                ) && r == final(self).sessions@.get(session_id@),
            final(self).differs_in_sessions(*old(self)),
    {
        let now: u64 = self.now();
        let used: u64 = self.now();
        self.get_session_at(session_id, now, used)
    }

    /// Get a session by its ID: one that has not run out by the time `now`. It
    /// is then used at the time `used`.
    pub fn get_session_at(&mut self, session_id: &str, now: u64, used: u64) -> (r: Option<Session>)
        ensures
            final(self).sessions@ == looked_up(old(self).sessions@, session_id@, now, used),
            r == final(self).sessions@.get(session_id@),
            final(self).differs_in_sessions(*old(self)),
    {
        Self::prune_expired_sessions(&mut self.sessions, now);
        let session = match self.sessions.get(session_id) {
            Some(session) => Session { last_accessed: used, ..session.clone() },
            None => {
                return None;
            },
        };
        self.sessions.insert(session_id.to_owned(), session.clone());
        Some(session)
    }

    /// Create a new session under an ID that no other session has.
    pub fn create_session(&mut self, session: Session) -> (r: String)
        ensures
            is_session_id(r@),
            exists|now: Instant|
                ({
                    let live = live_sessions(
                        old(self).sessions@,
                        #[trigger] time_at(old(self).started, now),
                    );
                    !live.contains_key(r@) && final(self).sessions@ == live.insert(r@, session)
                }),
            final(self).differs_in_sessions(*old(self)),
    {
        let now: u64 = self.now();
        self.create_session_at(session, now)
    }

    /// Create a new session at the time `now`, under an ID that no other session
    /// has.
    ///
    /// The ID is random. A random ID that is taken is drawn again, up to 2^128 - 1
    /// times; the free ID of the lowest number, which might have been drawn as well,
    /// would serve after that.
    pub fn create_session_at(&mut self, session: Session, now: u64) -> (r: String)
        ensures
            is_session_id(r@),
            !live_sessions(old(self).sessions@, now).contains_key(r@),
            final(self).sessions@ == live_sessions(old(self).sessions@, now).insert(r@, session),
            final(self).differs_in_sessions(*old(self)),
    {
        Self::prune_expired_sessions(&mut self.sessions, now);
        let ghost live = self.sessions@;
        let mut waiting = session;
        let mut draws: u128 = 0;
        while draws < SESSION_ID_DRAWS
            invariant
                waiting == session,
                self.sessions@ == live,
                self.differs_in_sessions(*old(self)),
                live == live_sessions(old(self).sessions@, now),
            decreases SESSION_ID_DRAWS - draws,
        {
            match self.create_session_as(random_session_id(), waiting) {
                Ok(id) => {
                    return id;
                },
                Err(back) => {
                    waiting = back;
                },
            }
            draws += 1;
        }
        let count: u64 = self.sessions.len() as u64;
        let mut number: u64 = 0;
        while number < count
            invariant
                number <= count,
                count == live.dom().len(),
                live.dom().finite(),
                waiting == session,
                self.sessions@ == live,
                self.differs_in_sessions(*old(self)),
                live == live_sessions(old(self).sessions@, now),
                forall|n: nat| n < number ==> live.dom().contains(#[trigger] numbered_id(n)),
            decreases count - number,
        {
            match self.create_session_as(numbered_session_id(number), waiting) {
                Ok(id) => {
                    return id;
                },
                Err(back) => {
                    waiting = back;
                },
            }
            number += 1;
        }
        let id = numbered_session_id(count);
        proof {
            lemma_numbered_id_free(live.dom());
        }
        self.sessions.insert(id.clone(), waiting);
        id
    }

    /// Stores a session under the given ID. Where the ID is taken, the session
    /// comes back.
    pub fn create_session_as(&mut self, session_id: String, session: Session) -> (r: Result<
        String,
        Session,
    >)
        ensures
            r == (if old(self).sessions@.contains_key(session_id@) {
                Err::<String, Session>(session)
            } else {
                Ok(session_id)
            }),
            final(self).sessions@ == (if r is Ok {
                old(self).sessions@.insert(session_id@, session)
            } else {
                old(self).sessions@
            }),
            final(self).differs_in_sessions(*old(self)),
    {
        if self.sessions.contains_key(session_id.as_str()) {
            return Err(session);
        }
        self.sessions.insert(session_id.clone(), session);
        Ok(session_id)
    }

    /// The guild that a channel or thread belongs to.
    pub fn resolve_guild_id_for_channel(&self, channel_id: u64) -> (r: Option<u64>)
        ensures
            r == resolved(self.shards@, channel_id),
    {
        let mut i: usize = 0;
        assert(self.shards@.skip(0) =~= self.shards@);
        while i < self.shards.len()
            invariant
                i <= self.shards@.len(),
                resolved(self.shards@, channel_id) == resolved(
                    self.shards@.skip(i as int),
                    channel_id,
                ),
            decreases self.shards.len() - i,
        {
            if let Some(guild) = self.shards[i].guilds.resolve_guild_id_for_channel(channel_id) {
                return Some(guild);
            }
            assert(self.shards@.skip(i as int).skip(1) =~= self.shards@.skip(i + 1));
            i += 1;
        }
        None
    }

    /// A client has opened a connection.
    pub fn mark_client_connected(&mut self, client_id: &str)
        requires
            connections(old(self).active_client_connections@, client_id@) < usize::MAX,
        ensures
            final(self).active_client_connections@ == connected(
                old(self).active_client_connections@,
                client_id@,
            ),
            final(self).differs_in_connections(*old(self)),
    {
        let current: usize = match self.active_client_connections.get(client_id) {
            Some(count) => *count,
            None => 0,
        };
        self.active_client_connections.insert(client_id.to_owned(), current + 1);
    }

    /// A client has closed a connection.
    pub fn mark_client_disconnected(&mut self, client_id: &str)
        ensures
            final(self).active_client_connections@ == disconnected(
                old(self).active_client_connections@,
                client_id@,
            ),
            final(self).differs_in_connections(*old(self)),
    {
        let current: usize = match self.active_client_connections.get(client_id) {
            Some(count) => *count,
            None => 0,
        };
        if current <= 1 {
            self.active_client_connections.remove(client_id);
            return;
        }
        self.active_client_connections.insert(client_id.to_owned(), current - 1);
    }

    /// Whether a client has a connection.
    pub fn is_client_connected(&self, client_id: &str) -> (r: bool)
        ensures
            r == (connections(self.active_client_connections@, client_id@) > 0),
    {
        match self.active_client_connections.get(client_id) {
            Some(count) => *count > 0,
            None => false,
        }
    }

    /// Keeps an event for a client that is not connected.
    pub fn push_offline_event_for_client(&mut self, client_id: &str, event: BufferedClientEvent)
        ensures
            buffered(final(self).offline_event_buffers@, client_id@) == event_pushed(
                buffered(old(self).offline_event_buffers@, client_id@),
                event,
            ),
            final(self).offline_event_buffers@.contains_key(client_id@),
            final(self).offline_event_buffers@.remove(client_id@)
                == old(self).offline_event_buffers@.remove(client_id@),
            final(self).differs_in_buffers(*old(self)),
    {
        let mut events: VecDeque<BufferedClientEvent> = match self.offline_event_buffers.remove(
            client_id,
        ) {
            Some(events) => events,
            None => VecDeque::new(),
        };
        if events.len() >= OFFLINE_EVENT_BUFFER_LIMIT {
            let _ = events.pop_front();
        }
        events.push_back(event);
        self.offline_event_buffers.insert(client_id.to_owned(), events);
        assert(self.offline_event_buffers@.remove(client_id@)
            =~= old(self).offline_event_buffers@.remove(client_id@));
        assert(events@ =~= event_pushed(
            buffered(old(self).offline_event_buffers@, client_id@),
            event,
        ));
    }

    /// Hands out the events kept for a client, oldest first.
    pub fn drain_offline_events_for_client(&mut self, client_id: &str) -> (r: Vec<
        BufferedClientEvent,
    >)
        ensures
            r@ == buffered(old(self).offline_event_buffers@, client_id@),
            final(self).offline_event_buffers@ == old(self).offline_event_buffers@.remove(
                client_id@,
            ),
            final(self).differs_in_buffers(*old(self)),
    {
        let mut out: Vec<BufferedClientEvent> = Vec::new();
        if let Some(events) = self.offline_event_buffers.remove(client_id) {
            let ghost all = events@;
            let mut rest = events;
            assert(out@ + rest@ =~= all);
            while rest.len() > 0
                invariant
                    out@ + rest@ == all,
                decreases rest.len(),
            {
                let ghost before = out@ + rest@;
                if let Some(event) = rest.pop_front() {
                    out.push(event);
                }
                assert(out@ + rest@ =~= before);
            }
            assert(out@ =~= all);
        }
        out
    }

    /// Whether a client is to be woken: not if that was tried less than
    /// `cooldown` nanoseconds ago. If so, it counts as tried.
    pub fn should_wake_client(&mut self, client_id: &str, cooldown: u128) -> (r: bool)
        ensures
            exists|now: Instant|
                ({
                    let time = #[trigger] time_at(old(self).started, now);
                    &&& r == may_wake(old(self).last_wake_attempts@, client_id@, cooldown, time)
                    &&& final(self).last_wake_attempts@ == woken(
                        old(self).last_wake_attempts@,
                        client_id@,
                        cooldown,
                        time,
                    )
                }),
            final(self).differs_in_wakes(*old(self)),
    {
        let now: u64 = self.now();
        self.should_wake_client_at(client_id, cooldown, now)
    }

    /// Whether a client is to be woken at the time `now`.
    pub fn should_wake_client_at(&mut self, client_id: &str, cooldown: u128, now: u64) -> (r: bool)
        ensures
            r == may_wake(old(self).last_wake_attempts@, client_id@, cooldown, now),
            final(self).last_wake_attempts@ == woken(
                old(self).last_wake_attempts@,
                client_id@,
                cooldown,
                now,
            ),
            final(self).differs_in_wakes(*old(self)),
    {
        if let Some(last) = self.last_wake_attempts.get(client_id) {
            if (now.saturating_sub(*last) as u128) < cooldown {
                return false;
            }
        }
        self.last_wake_attempts.insert(client_id.to_owned(), now);
        true
    }
}

// --- What holds of sessions ---

/// A session is found under the id that it was created with, as long as it has
/// not run out. Being found, it was used last at the time `used`.
pub proof fn law_created_session_is_found(
    sessions: Map<Seq<char>, Session>,
    id: Seq<char>,
    session: Session,
    now: u64,
    used: u64,
)
    requires
        is_live(session, now),
    ensures
        looked_up(sessions.insert(id, session), id, now, used).get(id) == Some(
            touched(session, used),
        ),
{
}

/// A session that has run out is not found, and is gone for good.
pub proof fn law_expired_session_is_gone(
    sessions: Map<Seq<char>, Session>,
    id: Seq<char>,
    other: Seq<char>,
    now: u64,
    used: u64,
)
    requires
        sessions.contains_key(id),
        !is_live(sessions[id], now),
    ensures
        looked_up(sessions, id, now, used).get(id) is None,
        !looked_up(sessions, other, now, used).contains_key(id),
{
}

/// A session that is found is kept for another half hour from its use.
pub proof fn law_use_prolongs_session(
    sessions: Map<Seq<char>, Session>,
    id: Seq<char>,
    now: u64,
    used: u64,
    later: u64,
    used_later: u64,
)
    requires
        live_sessions(sessions, now).contains_key(id),
        later - used <= SESSION_TTL_NANOS,
    ensures
        looked_up(looked_up(sessions, id, now, used), id, later, used_later).get(id) == Some(
            touched(sessions[id], used_later),
        ),
{
}

/// Looking a session up, or creating one, leaves every other session that has not
/// run out as it is.
pub proof fn law_other_sessions_stay(
    sessions: Map<Seq<char>, Session>,
    id: Seq<char>,
    session: Session,
    other: Seq<char>,
    now: u64,
    used: u64,
)
    requires
        other != id,
        sessions.contains_key(other),
        is_live(sessions[other], now),
    ensures
        looked_up(sessions, id, now, used).get(other) == Some(sessions[other]),
        live_sessions(sessions, now).insert(id, session).get(other) == Some(sessions[other]),
{
}

/// What is found of a session are the shard, the compression, the principal and
/// the guilds that it was created with.
pub proof fn law_found_session_is_unchanged(
    sessions: Map<Seq<char>, Session>,
    id: Seq<char>,
    now: u64,
    used: u64,
)
    ensures
        looked_up(sessions, id, now, used).get(id) matches Some(found) ==> {
            &&& sessions.contains_key(id)
            &&& is_live(sessions[id], now)
            &&& found == touched(sessions[id], used)
        },
{
}

// --- What holds of connections ---

/// Closing a connection undoes opening it: the count is the same again, and so are
/// all connections where only clients with a connection are listed.
pub proof fn law_disconnect_undoes_connect(active: Map<Seq<char>, usize>, client: Seq<char>)
    requires
        connections(active, client) < usize::MAX,
    ensures
        connections(connected(active, client), client) == connections(active, client) + 1,
        connections(disconnected(connected(active, client), client), client) == connections(
            active,
            client,
        ),
        lists_connected_only(active) ==> disconnected(connected(active, client), client) == active,
{
    if lists_connected_only(active) {
        assert(disconnected(connected(active, client), client) =~= active);
    }
}

/// A client is connected until the last of its connections is closed.
pub proof fn law_connected_until_last_disconnect(active: Map<Seq<char>, usize>, client: Seq<char>)
    ensures
        connections(disconnected(active, client), client) > 0 <==> connections(active, client) > 1,
{
}

/// The connections of one client do not bear on those of another.
pub proof fn law_connections_are_independent(
    active: Map<Seq<char>, usize>,
    client: Seq<char>,
    other: Seq<char>,
)
    requires
        client != other,
    ensures
        connections(connected(active, client), other) == connections(active, other),
        connections(disconnected(active, client), other) == connections(active, other),
{
}

/// Whether only clients with a connection are listed.
pub open spec fn lists_connected_only(active: Map<Seq<char>, usize>) -> bool {
    forall|client: Seq<char>| #[trigger] active.contains_key(client) ==> active[client] > 0
}

/// Only clients with a connection are listed, whatever opens or closes.
pub proof fn law_connected_clients_only(active: Map<Seq<char>, usize>, client: Seq<char>)
    requires
        lists_connected_only(active),
        connections(active, client) < usize::MAX,
    ensures
        lists_connected_only(Map::<Seq<char>, usize>::empty()),
        lists_connected_only(connected(active, client)),
        lists_connected_only(disconnected(active, client)),
{
}

// --- What holds of buffered events ---

/// A buffer after some more events.
pub open spec fn events_pushed(
    events: Seq<BufferedClientEvent>,
    more: Seq<BufferedClientEvent>,
) -> Seq<BufferedClientEvent>
    decreases more.len(),
{
    if more.len() == 0 {
        events
    } else {
        event_pushed(events_pushed(events, more.drop_last()), more.last())
    }
}

/// The last `n` events.
pub open spec fn newest(events: Seq<BufferedClientEvent>, n: nat) -> Seq<BufferedClientEvent> {
    if events.len() <= n {
        events
    } else {
        events.skip(events.len() - n)
    }
}

/// A buffer that is not over its limit holds the newest of all events that came,
/// up to the limit and in the order in which they came.
pub proof fn law_buffer_holds_newest(
    events: Seq<BufferedClientEvent>,
    more: Seq<BufferedClientEvent>,
)
    requires
        events.len() <= OFFLINE_EVENT_BUFFER_LIMIT,
    ensures
        events_pushed(events, more) == newest(events + more, OFFLINE_EVENT_BUFFER_LIMIT as nat),
        events_pushed(events, more).len() <= OFFLINE_EVENT_BUFFER_LIMIT,
    decreases more.len(),
{
    if more.len() > 0 {
        law_buffer_holds_newest(events, more.drop_last());
        assert(events + more =~= (events + more.drop_last()).push(more.last()));
        assert(events_pushed(events, more) =~= newest(
            events + more,
            OFFLINE_EVENT_BUFFER_LIMIT as nat,
        ));
    } else {
        assert(events + more =~= events);
    }
}

/// Events are handed out once: the buffer is empty after that.
pub proof fn law_drained_buffer_is_empty(
    buffers: Map<Seq<char>, VecDeque<BufferedClientEvent>>,
    client: Seq<char>,
)
    ensures
        buffered(buffers.remove(client), client) == Seq::<BufferedClientEvent>::empty(),
        forall|other: Seq<char>|
            other != client ==> #[trigger] buffered(buffers.remove(client), other) == buffered(
                buffers,
                other,
            ),
{
}

// --- What holds of wake attempts ---

/// A client that was woken is not woken again before the cooldown has passed, and
/// can be woken from then on.
pub proof fn law_woken_once_per_cooldown(
    wakes: Map<Seq<char>, u64>,
    client: Seq<char>,
    cooldown: u128,
    now: u64,
    later: u64,
)
    requires
        may_wake(wakes, client, cooldown, now),
        now <= later,
    ensures
        may_wake(woken(wakes, client, cooldown, now), client, cooldown, later) <==> later - now
            >= cooldown,
{
}

/// A client that asks in vain does not wait the longer for it.
pub proof fn law_refused_wake_changes_nothing(
    wakes: Map<Seq<char>, u64>,
    client: Seq<char>,
    cooldown: u128,
    now: u64,
)
    requires
        !may_wake(wakes, client, cooldown, now),
    ensures
        woken(wakes, client, cooldown, now) == wakes,
{
}

/// The first time, a client can be woken, whatever the cooldown and whoever else
/// was woken.
pub proof fn law_first_wake_is_allowed(
    wakes: Map<Seq<char>, u64>,
    client: Seq<char>,
    other: Seq<char>,
    cooldown: u128,
    now: u64,
    later: u64,
)
    requires
        !wakes.contains_key(client),
        client != other,
    ensures
        may_wake(woken(wakes, other, cooldown, now), client, cooldown, later),
{
}

// --- What holds of the shards ---

/// A channel has a guild exactly where some shard knows the channel, and the guild
/// is the one that some shard knows.
pub proof fn law_channel_resolves_by_some_shard(shards: Seq<Shard>, channel: u64)
    ensures
        resolved(shards, channel) is Some <==> exists|i: int|
            0 <= i < shards.len() && #[trigger] shards[i].guilds@.channels.contains_key(channel),
        resolved(shards, channel) matches Some(guild) ==> exists|i: int|
            0 <= i < shards.len() && (#[trigger] shards[i]).guilds@.channels.get(channel) == Some(
                guild,
            ),
    decreases shards.len(),
{
    if shards.len() > 0 {
        let rest = shards.skip(1);
        law_channel_resolves_by_some_shard(rest, channel);
        if let Some(guild) = shards[0].guilds@.channels.get(channel) {
            assert(shards[0].guilds@.channels.contains_key(channel));
        } else {
            if exists|i: int|
                0 <= i < rest.len() && #[trigger] rest[i].guilds@.channels.contains_key(channel) {
                let i = choose|i: int|
                    0 <= i < rest.len() && #[trigger] rest[i].guilds@.channels.contains_key(channel);
                assert(shards[i + 1].guilds@.channels.contains_key(channel));
            }
            if exists|i: int|
                0 <= i < shards.len() && #[trigger] shards[i].guilds@.channels.contains_key(channel) {
                let i = choose|i: int|
                    0 <= i < shards.len() && #[trigger] shards[i].guilds@.channels.contains_key(
                        channel,
                    );
                assert(rest[i - 1].guilds@.channels.contains_key(channel));
            }
            if let Some(guild) = resolved(rest, channel) {
                let i = choose|i: int|
                    0 <= i < rest.len() && (#[trigger] rest[i]).guilds@.channels.get(channel)
                        == Some(guild);
                assert(shards[i + 1].guilds@.channels.get(channel) == Some(guild));
            }
        }
    }
}

// --- What each operation leaves ---

/// A lookup leaves those sessions that were used within half an hour before `now`, and
/// no others. The one that was asked for has its shard, its compression, its principal
/// and its guilds as they were, and is used at the time `used`; the others are as they
/// were.
pub proof fn law_lookup(sessions: Map<Seq<char>, Session>, id: Seq<char>, now: u64, used: u64)
    ensures
        ({
            let after = looked_up(sessions, id, now, used);
            &&& forall|other: Seq<char>|
                #![trigger after.contains_key(other)]
                after.contains_key(other) <==> sessions.contains_key(other) && now
                    - sessions[other].last_accessed <= 1_800_000_000_000
            &&& forall|other: Seq<char>|
                #![trigger after[other]]
                after.contains_key(other) && other != id ==> after[other] == sessions[other]
            &&& after.contains_key(id) ==> {
                &&& after[id].shard_id == sessions[id].shard_id
                &&& after[id].compress == sessions[id].compress
                &&& after[id].principal == sessions[id].principal
                &&& after[id].authorized_guilds == sessions[id].authorized_guilds
                &&& after[id].last_accessed == used
            }
        }),
{
}

/// A session that was created and is found later has the shard, the compression, the
/// principal and the guilds that it was created with.
pub proof fn law_found_as_created(
    sessions: Map<Seq<char>, Session>,
    id: Seq<char>,
    session: Session,
    created: u64,
    now: u64,
    used: u64,
)
    requires
        now - session.last_accessed <= 1_800_000_000_000,
    ensures
        ({
            let stored = live_sessions(sessions, created).insert(id, session);
            let found = looked_up(stored, id, now, used).get(id);
            &&& found is Some
            &&& found->Some_0.shard_id == session.shard_id
            &&& found->Some_0.compress == session.compress
            &&& found->Some_0.principal == session.principal
            &&& found->Some_0.authorized_guilds == session.authorized_guilds
            &&& found->Some_0.last_accessed == used
        }),
{
}

/// Before a session is created those that were used within half an hour stay as they
/// are, and no others.
pub proof fn law_pruning(sessions: Map<Seq<char>, Session>, now: u64, id: Seq<char>)
    ensures
        live_sessions(sessions, now).get(id) == if sessions.contains_key(id) && now
            - sessions[id].last_accessed <= 1_800_000_000_000 {
            Some(sessions[id])
        } else {
            None
        },
{
}

/// What an operation on one part of the state leaves as it is: all other parts.
pub proof fn law_other_parts_stay(a: Inner, b: Inner)
    ensures
        a.differs_in_sessions(b) || a.differs_in_connections(b) || a.differs_in_buffers(b)
            || a.differs_in_wakes(b) ==> a.shards == b.shards && a.shard_count == b.shard_count
            && a.started == b.started,
        !a.differs_in_sessions(b) || a.active_client_connections == b.active_client_connections
            && a.offline_event_buffers == b.offline_event_buffers && a.last_wake_attempts
            == b.last_wake_attempts,
        !a.differs_in_connections(b) || a.sessions == b.sessions && a.offline_event_buffers
            == b.offline_event_buffers && a.last_wake_attempts == b.last_wake_attempts,
        !a.differs_in_buffers(b) || a.sessions == b.sessions && a.active_client_connections
            == b.active_client_connections && a.last_wake_attempts == b.last_wake_attempts,
        !a.differs_in_wakes(b) || a.sessions == b.sessions && a.active_client_connections
            == b.active_client_connections && a.offline_event_buffers == b.offline_event_buffers,
{
}

/// A client has as many connections as are listed for it, and none where it is not
/// listed.
pub proof fn law_connections_are_listed(active: Map<Seq<char>, usize>, client: Seq<char>)
    ensures
        active.get(client) matches Some(count) ==> connections(active, client) == count,
        active.get(client) is None ==> connections(active, client) == 0,
{
}

/// Opening a connection adds one to those of the client. Closing one takes one away;
/// with the last of them the client goes. Other clients are as they were.
pub proof fn law_connections_count(
    active: Map<Seq<char>, usize>,
    client: Seq<char>,
    other: Seq<char>,
)
    requires
        other != client,
        active.get(client) != Some(usize::MAX),
    ensures
        connected(active, client).get(client) == Some(
            match active.get(client) {
                Some(count) => (count + 1) as usize,
                None => 1usize,
            },
        ),
        disconnected(active, client).get(client) == match active.get(client) {
            Some(count) => if count >= 2 {
                Some((count - 1) as usize)
            } else {
                None
            },
            None => None,
        },
        connected(active, client).get(other) == active.get(other),
        disconnected(active, client).get(other) == active.get(other),
{
}

/// What is buffered for a client is what its buffer holds, nothing where it has none.
pub proof fn law_buffer_is_what_it_holds(
    buffers: Map<Seq<char>, VecDeque<BufferedClientEvent>>,
    client: Seq<char>,
)
    ensures
        buffers.get(client) matches Some(events) ==> buffered(buffers, client) == events@,
        buffers.get(client) is None ==> buffered(buffers, client).len() == 0,
{
}

/// An event goes to the end of the buffer. A buffer of 200 events or more loses its
/// oldest one for it, and no other loses any.
pub proof fn law_event_goes_to_the_end(
    events: Seq<BufferedClientEvent>,
    event: BufferedClientEvent,
)
    ensures
        ({
            let after = event_pushed(events, event);
            &&& after.last() == event
            &&& events.len() < 200 ==> after.drop_last() == events
            &&& events.len() >= 200 ==> after.drop_last() == events.drop_first()
        }),
{
    let after = event_pushed(events, event);
    if events.len() < 200 {
        assert(after.drop_last() =~= events);
    } else {
        assert(after.drop_last() =~= events.drop_first());
    }
}

/// A client may be woken exactly where it was never tried, or was tried at least the
/// cooldown ago. (A time before the last attempt counts as no time since.)
pub proof fn law_wake_waits_for_cooldown(
    wakes: Map<Seq<char>, u64>,
    client: Seq<char>,
    cooldown: u128,
    now: u64,
)
    ensures
        may_wake(wakes, client, cooldown, now) <==> (match wakes.get(client) {
            Some(last) => cooldown == 0 || now - last >= cooldown,
            None => true,
        }),
{
}

/// A client that may be woken was tried now; one that may not was tried when it was.
/// Other clients are as they were.
pub proof fn law_wake_is_noted(
    wakes: Map<Seq<char>, u64>,
    client: Seq<char>,
    cooldown: u128,
    now: u64,
    other: Seq<char>,
)
    requires
        other != client,
    ensures
        woken(wakes, client, cooldown, now).get(client) == if wakes.get(client) is None || cooldown
            == 0 || now - wakes.get(client)->Some_0 >= cooldown {
            Some(now)
        } else {
            wakes.get(client)
        },
        woken(wakes, client, cooldown, now).get(other) == wakes.get(other),
{
}

/// A channel has the guild that the first shard gives it that knows the channel, and
/// none where no shard knows it.
pub proof fn law_first_shard_resolves(shards: Seq<Shard>, channel: u64, i: int)
    ensures
        0 <= i < shards.len() && shards[i].guilds@.channels.contains_key(channel) && (forall|j: int|
            0 <= j < i ==> !(#[trigger] shards[j]).guilds@.channels.contains_key(channel))
            ==> resolved(shards, channel) == Some(shards[i].guilds@.channels[channel]),
        (forall|j: int|
            0 <= j < shards.len() ==> !(#[trigger] shards[j]).guilds@.channels.contains_key(channel))
            ==> resolved(shards, channel) is None,
    decreases shards.len(),
{
    if shards.len() > 0 {
        let rest = shards.skip(1);
        law_first_shard_resolves(rest, channel, i - 1);
        assert forall|j: int| 0 <= j < rest.len() implies #[trigger] rest[j] == shards[j + 1] by {}
        if !shards[0].guilds@.channels.contains_key(channel) {
            if 0 < i < shards.len() {
                assert(rest[i - 1] == shards[i]);
            }
        }
    }
}

/// As whom a session was opened is told by its principal, with the id or token in it.
pub proof fn law_principal_is_told(principal: SessionPrincipal)
    ensures
        principal matches SessionPrincipal::BotToken ==> principal@ == PrincipalView::BotToken,
        principal matches SessionPrincipal::Client(id) ==> principal@ == PrincipalView::Client(id@),
        principal matches SessionPrincipal::Unvalidated(token) ==> principal@
            == PrincipalView::Unvalidated(token@),
{
}

} // verus!
