use gateway_proxy::cache::Guilds;
use gateway_proxy::clock::nanos_between;
use gateway_proxy::json::{Json, JsonObject};
use gateway_proxy::session_id::{numbered_session_id, random_session_id, session_id_of};
use gateway_proxy::state::{
    BufferedClientEvent, Inner, Ready, Session, SessionPrincipal, Shard,
    OFFLINE_EVENT_BUFFER_LIMIT, SESSION_TTL_NANOS,
};
use gateway_proxy::string_map::StringMap;
use std::collections::HashSet;
use std::sync::Arc;
use std::time::{Duration, Instant};

fn inner() -> Inner {
    Inner::new(Vec::new(), 1)
}

fn session(shard_id: u32, last_accessed: u64) -> Session {
    Session {
        shard_id,
        compress: Some(true),
        principal: SessionPrincipal::Client("a".to_string()),
        authorized_guilds: None,
        last_accessed,
    }
}

fn event(n: u64) -> BufferedClientEvent {
    BufferedClientEvent { payload: format!("event {n}"), sequence: None, guild_id: Some(n) }
}

#[test]
fn session_ids_are_random_alphanumerics() {
    let a = random_session_id();
    let b = random_session_id();
    assert_eq!(a.len(), 32);
    assert!(a.chars().all(|c| c.is_ascii_alphanumeric()));
    assert_ne!(a, b);
}

#[test]
fn numbered_ids_are_padded() {
    assert_eq!(numbered_session_id(0), "00000000000000000000000000000000");
    assert_eq!(numbered_session_id(1207), "00000000000000000000000000001207");
    assert_eq!(numbered_session_id(u64::MAX), "00000000000018446744073709551615");
}

#[test]
fn created_session_is_found() {
    let mut state = inner();
    let now = state.now();
    let id = state.create_session(session(7, now));
    assert_eq!(id.len(), 32);
    let found = state.get_session(&id).unwrap();
    assert_eq!(found.shard_id, 7);
    assert_eq!(found.compress, Some(true));
    assert_eq!(found.principal, SessionPrincipal::Client("a".to_string()));
    assert!(found.last_accessed >= now);
    assert!(state.get_session("nobody").is_none());
}

#[test]
fn clock_goes_on() {
    let state = inner();
    let first = state.now();
    let mut later = state.now();
    while later == first {
        later = state.now();
    }
    assert!(later > first);
}

#[test]
fn session_runs_out_after_half_an_hour() {
    assert_eq!(SESSION_TTL_NANOS, 30 * 60 * 1_000_000_000);
    let mut state = inner();
    let id = state.create_session_at(session(1, 1_000), 1_000);
    assert!(state.get_session_at(&id, 1_000 + SESSION_TTL_NANOS, 1_000).is_some());
    assert!(state.get_session_at(&id, 1_001 + SESSION_TTL_NANOS, 0).is_none());
    assert!(!state.sessions.contains_key(&id));
}

#[test]
fn use_prolongs_a_session() {
    let mut state = inner();
    let id = state.create_session_at(session(1, 0), 0);
    let found = state.get_session_at(&id, 5, 9).unwrap();
    assert_eq!(found.last_accessed, 9);
    assert!(state.get_session_at(&id, SESSION_TTL_NANOS + 9, 10).is_some());
}

#[test]
fn session_used_in_the_future_is_live() {
    let mut state = inner();
    let id = state.create_session_at(session(1, 500), 0);
    assert!(state.get_session_at(&id, 0, 0).is_some());
}

#[test]
fn lookups_and_creations_prune() {
    let mut state = inner();
    let old = state.create_session_at(session(1, 0), 0);
    let young = state.create_session_at(session(2, 10), 10);
    assert_eq!(state.sessions.len(), 2);
    assert!(state.get_session_at("other", SESSION_TTL_NANOS + 5, 0).is_none());
    assert!(!state.sessions.contains_key(&old));
    assert!(state.sessions.contains_key(&young));
    let third = state.create_session_at(session(3, 0), SESSION_TTL_NANOS + 11);
    assert_eq!(state.sessions.len(), 1);
    assert!(state.sessions.contains_key(&third));
}

#[test]
fn taken_id_gives_the_session_back() {
    let mut state = inner();
    assert!(state.create_session_as("x".to_string(), session(1, 0)).is_ok());
    match state.create_session_as("x".to_string(), session(2, 0)) {
        Ok(_) => panic!("taken twice"),
        Err(back) => assert_eq!(back.shard_id, 2),
    }
    assert_eq!(state.sessions.get("x").unwrap().shard_id, 1);
}

#[test]
fn session_copies_share_the_guilds() {
    let mut set: HashSet<u64> = HashSet::new();
    set.insert(4);
    let guilds = Arc::new(set);
    let mut first = session(1, 0);
    first.authorized_guilds = Some(Arc::clone(&guilds));
    first.principal = SessionPrincipal::Unvalidated("t".to_string());
    let copy = first.clone();
    assert!(Arc::ptr_eq(copy.authorized_guilds.as_ref().unwrap(), &guilds));
    assert_eq!(copy.principal, SessionPrincipal::Unvalidated("t".to_string()));
    assert_eq!(SessionPrincipal::BotToken.clone(), SessionPrincipal::BotToken);
}

#[test]
fn client_is_connected_until_the_last_disconnect() {
    let mut state = inner();
    assert!(!state.is_client_connected("a"));
    state.mark_client_connected("a");
    state.mark_client_connected("a");
    assert!(state.is_client_connected("a"));
    assert!(!state.is_client_connected("b"));
    state.mark_client_disconnected("a");
    assert!(state.is_client_connected("a"));
    state.mark_client_disconnected("a");
    assert!(!state.is_client_connected("a"));
    assert_eq!(state.active_client_connections.len(), 0);
    state.mark_client_disconnected("a");
    assert!(!state.is_client_connected("a"));
}

#[test]
fn buffered_events_come_out_in_order_and_once() {
    let mut state = inner();
    for n in 0..3 {
        state.push_offline_event_for_client("a", event(n));
    }
    state.push_offline_event_for_client("b", event(9));
    let events = state.drain_offline_events_for_client("a");
    let guilds: Vec<Option<u64>> = events.iter().map(|e| e.guild_id).collect();
    assert_eq!(guilds, vec![Some(0), Some(1), Some(2)]);
    assert_eq!(events[1].payload, "event 1");
    assert!(state.drain_offline_events_for_client("a").is_empty());
    assert_eq!(state.drain_offline_events_for_client("b").len(), 1);
}

#[test]
fn full_buffer_loses_its_oldest() {
    assert_eq!(OFFLINE_EVENT_BUFFER_LIMIT, 200);
    let mut state = inner();
    for n in 0..203 {
        state.push_offline_event_for_client("a", event(n));
    }
    let events = state.drain_offline_events_for_client("a");
    assert_eq!(events.len(), 200);
    assert_eq!(events[0].guild_id, Some(3));
    assert_eq!(events[199].guild_id, Some(202));
}

#[test]
fn client_is_woken_once_per_cooldown() {
    let mut state = inner();
    assert!(state.should_wake_client_at("a", 100, 50));
    assert!(!state.should_wake_client_at("a", 100, 149));
    assert!(state.should_wake_client_at("a", 100, 150));
    assert!(!state.should_wake_client_at("a", 100, 249));
    assert!(state.should_wake_client_at("b", 100, 150));
    assert!(!state.should_wake_client_at("a", 100, 10));
    assert!(state.should_wake_client_at("a", 0, 10));
}

#[test]
fn wake_goes_by_the_clock() {
    let mut state = inner();
    assert!(state.should_wake_client("a", u128::MAX));
    assert!(!state.should_wake_client("a", u128::MAX));
    assert!(state.should_wake_client("a", 0));
}

#[test]
fn first_shard_that_knows_a_channel_resolves_it() {
    let mut shards: Vec<Shard> = Vec::new();
    for (id, guild) in [(0, "10"), (1, "20"), (2, "30")] {
        let mut guilds = Guilds::new();
        let channel = if id == 0 { "1" } else { "2" };
        guilds.process_event(
            "GUILD_CREATE",
            &format!("{{\"d\":{{\"id\":\"{guild}\",\"channels\":[{{\"id\":\"{channel}\"}}]}}}}"),
            None,
        );
        shards.push(Shard { id, ready: Ready::new(), guilds });
    }
    let state = Inner::new(shards, 3);
    assert_eq!(state.shard_count, 3);
    assert_eq!(state.resolve_guild_id_for_channel(1), Some(10));
    assert_eq!(state.resolve_guild_id_for_channel(2), Some(20));
    assert_eq!(state.resolve_guild_id_for_channel(3), None);
}

#[test]
fn shard_becomes_ready_and_unready() {
    let mut ready = Ready::new();
    assert!(!ready.is_ready());
    assert!(ready.payload().is_none());
    let mut payload = JsonObject::new();
    payload.insert("v".to_string(), Json::integer(10));
    ready.set_ready(payload);
    assert!(ready.is_ready());
    assert!(ready.payload().unwrap().get("v").is_some());
    assert!(ready.is_ready());
    ready.set_not_ready();
    assert!(!ready.is_ready());
}

#[test]
fn string_map_holds_its_entries() {
    let mut map: StringMap<u8> = StringMap::new();
    for (i, key) in ["a", "b", "c", "d"].iter().enumerate() {
        map.insert(key.to_string(), i as u8);
    }
    map.insert("b".to_string(), 9);
    assert_eq!(map.len(), 4);
    assert_eq!(map.remove("a"), Some(0));
    assert_eq!(map.remove("a"), None);
    assert_eq!(map.get("b"), Some(&9));
    assert_eq!(map.get("d"), Some(&3));
    assert!(!map.contains_key("a"));
    let mut entries = map.take_entries();
    entries.sort();
    assert_eq!(
        entries,
        vec![("b".to_string(), 9), ("c".to_string(), 2), ("d".to_string(), 3)]
    );
    assert_eq!(map.len(), 0);
    assert!(!map.contains_key("b"));
}

#[test]
fn clock_counts_nanoseconds_from_the_start() {
    let begin = Instant::now();
    let state = inner();
    assert!(u128::from(state.now()) <= begin.elapsed().as_nanos());
    let first = state.now();
    let pause = Instant::now();
    while pause.elapsed() < Duration::from_millis(20) {}
    let later = state.now();
    assert!(later - first >= 20_000_000);
    assert!(u128::from(later) <= begin.elapsed().as_nanos());
}

#[test]
fn time_between_instants_is_clamped() {
    let start = Instant::now();
    assert_eq!(nanos_between(&start, &(start + Duration::from_nanos(1_500))), 1_500);
    assert_eq!(nanos_between(&start, &start), 0);
    assert_eq!(nanos_between(&(start + Duration::from_secs(1)), &start), 0);
    let far = start + Duration::from_secs(20_000_000_000);
    assert_eq!(nanos_between(&start, &far), u64::MAX);
}

#[test]
fn session_id_is_what_was_drawn() {
    let drawn: Vec<u8> = b"AZaz09AZaz09AZaz09AZaz09AZaz09Xy".to_vec();
    assert_eq!(session_id_of(&drawn), "AZaz09AZaz09AZaz09AZaz09AZaz09Xy");
}
