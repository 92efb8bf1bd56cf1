use gateway_proxy::cache::{event_of, ready_payload, GuildPayloads, Guilds};
use gateway_proxy::cache_model::Event;
use gateway_proxy::codec::{parse_json, print_json};
use gateway_proxy::json::{Json, JsonObject};
use std::collections::HashSet;

const GUILD: &str = r#"{"op":0,"t":"GUILD_CREATE","s":9,"d":{"id":"100","name":"home","member_count":3,
"channels":[{"id":"1","name":"a"},{"id":"2","name":"b"}],"threads":[{"id":"5"}],
"roles":[{"id":"r1","name":"x"},{"id":"r2","name":"y"}],
"members":[{"user":{"id":"u1"},"nick":"n"}],
"voice_states":[{"user_id":"u1","channel_id":"2","member":{"nick":"n"}}]}}"#;

fn cache_with_guild() -> Guilds {
    let mut guilds = Guilds::new();
    guilds.process_event("GUILD_CREATE", GUILD, None);
    guilds
}

/// Takes all payloads.
fn all(mut payloads: GuildPayloads) -> Vec<String> {
    let mut out: Vec<String> = Vec::new();
    while let Some(payload) = payloads.next() {
        out.push(payload);
    }
    out
}

/// The JSON of the only guild, as a client receives it.
fn stored(guilds: &Guilds) -> String {
    let mut sequence: usize = 0;
    let payloads = all(guilds.get_guild_payloads(&mut sequence, None));
    assert_eq!(payloads.len(), 1);
    let start = r#"{"op":0,"t":"GUILD_CREATE","s":1,"d":"#;
    assert!(payloads[0].starts_with(start));
    assert!(payloads[0].ends_with('}'));
    payloads[0][start.len()..payloads[0].len() - 1].to_string()
}

/// The text of one member of that JSON.
fn field(guilds: &Guilds, key: &str) -> String {
    let json = parse_json(&stored(guilds)).unwrap();
    print_json(json.get(key).unwrap())
}

fn data(json: &str) -> String {
    format!("{{\"op\":0,\"d\":{json}}}")
}

#[test]
fn new_cache_is_empty() {
    let guilds = Guilds::new();
    let stats = guilds.stats();
    assert_eq!((stats.guilds, stats.channels), (0, 0));
    assert_eq!(guilds.resolve_guild_id_for_channel(1), None);
    let mut sequence: usize = 4;
    assert!(all(guilds.get_guild_payloads(&mut sequence, None)).is_empty());
    assert_eq!(sequence, 4);
}

#[test]
fn created_guild_is_served_with_sorted_keys() {
    let guilds = cache_with_guild();
    assert_eq!(
        stored(&guilds),
        concat_parts(&[
            r#"{"channels":[{"id":"1","name":"a"},{"id":"2","name":"b"}],"id":"100","member_count":3,"#,
            r#""members":[{"nick":"n","user":{"id":"u1"}}],"name":"home","#,
            r#""roles":[{"id":"r1","name":"x"},{"id":"r2","name":"y"}],"threads":[{"id":"5"}],"#,
            r#""voice_states":[{"channel_id":"2","member":{"nick":"n"},"user_id":"u1"}]}"#,
        ])
    );
}

fn concat_parts(parts: &[&str]) -> String {
    let mut out = String::new();
    for part in parts {
        out.push_str(part);
    }
    out
}

#[test]
fn created_guild_indexes_channels_and_threads() {
    let guilds = cache_with_guild();
    let stats = guilds.stats();
    assert_eq!((stats.guilds, stats.channels), (1, 3));
    for channel in [1, 2, 5] {
        assert_eq!(guilds.resolve_guild_id_for_channel(channel), Some(100));
    }
    assert_eq!(guilds.resolve_guild_id_for_channel(100), None);
}

#[test]
fn guild_without_id_is_passed_over() {
    let mut guilds = Guilds::new();
    guilds.process_event("GUILD_CREATE", &data(r#"{"name":"x"}"#), None);
    guilds.process_event("GUILD_CREATE", &data(r#"{"id":7}"#), None);
    guilds.process_event("GUILD_CREATE", &data(r#"{"id":"seven"}"#), None);
    guilds.process_event("GUILD_CREATE", &data(r#"{"id":"18446744073709551616"}"#), None);
    guilds.process_event("GUILD_CREATE", "[1", None);
    assert_eq!(guilds.stats().guilds, 0);
    guilds.process_event("GUILD_CREATE", &data(r#"{"id":"18446744073709551615"}"#), None);
    assert_eq!(guilds.stats().guilds, 1);
}

#[test]
fn channels_without_number_are_not_indexed() {
    let mut guilds = Guilds::new();
    guilds.process_event(
        "GUILD_CREATE",
        &data(r#"{"id":"+8","channels":[{"id":"1"},{"id":"x"},{"id":2},{}],"threads":null}"#),
        Some(3),
    );
    assert_eq!(guilds.stats().channels, 1);
    assert_eq!(guilds.resolve_guild_id_for_channel(1), Some(8));
}

#[test]
fn unknown_events_change_nothing() {
    let mut guilds = cache_with_guild();
    let before = stored(&guilds);
    for name in ["MESSAGE_CREATE", "guild_create", "GUILD_CREATE ", ""] {
        guilds.process_event(name, &data(r#"{"id":"200"}"#), Some(100));
    }
    assert_eq!(stored(&guilds), before);
}

#[test]
fn every_event_name_is_known() {
    let names = [
        "GUILD_CREATE", "GUILD_UPDATE", "GUILD_DELETE", "CHANNEL_CREATE", "THREAD_CREATE",
        "CHANNEL_UPDATE", "THREAD_UPDATE", "CHANNEL_DELETE", "THREAD_DELETE", "THREAD_LIST_SYNC",
        "ROLE_CREATE", "ROLE_UPDATE", "ROLE_DELETE", "GUILD_EMOJIS_UPDATE", "GUILD_STICKERS_UPDATE",
        "VOICE_STATE_UPDATE", "GUILD_MEMBER_ADD", "GUILD_MEMBER_UPDATE", "GUILD_MEMBER_REMOVE",
        "GUILD_MEMBERS_CHUNK",
    ];
    for name in names {
        assert!(event_of(name).is_some());
    }
    assert!(matches!(event_of("THREAD_DELETE"), Some(Event::ChannelDelete)));
    assert!(matches!(event_of("ROLE_CREATE"), Some(Event::RoleUpsert)));
    assert!(event_of("GUILD_ROLE_CREATE").is_none());
}

#[test]
fn events_without_guild_change_nothing() {
    let mut guilds = cache_with_guild();
    let before = stored(&guilds);
    guilds.process_event("GUILD_UPDATE", &data(r#"{"name":"new"}"#), None);
    guilds.process_event("GUILD_DELETE", &data(r#"{"id":"100"}"#), None);
    guilds.process_event("CHANNEL_DELETE", &data(r#"{"id":"1"}"#), None);
    assert_eq!(stored(&guilds), before);
    assert_eq!(guilds.stats().channels, 3);
}

#[test]
fn unreadable_payloads_change_nothing() {
    let mut guilds = cache_with_guild();
    let before = stored(&guilds);
    for name in ["GUILD_UPDATE", "CHANNEL_CREATE", "ROLE_DELETE", "GUILD_MEMBER_REMOVE"] {
        guilds.process_event(name, "{\"d\":", Some(100));
    }
    assert_eq!(stored(&guilds), before);
}

#[test]
fn unreadable_delete_is_for_good() {
    let mut guilds = cache_with_guild();
    guilds.process_event("GUILD_DELETE", "oops", Some(100));
    assert_eq!(guilds.stats().guilds, 0);
}

#[test]
fn update_merges_fields() {
    let mut guilds = cache_with_guild();
    guilds.process_event("GUILD_UPDATE", &data(r#"{"name":"new","icon":null}"#), Some(100));
    assert_eq!(field(&guilds, "name"), "\"new\"");
    assert_eq!(field(&guilds, "icon"), "null");
    assert_eq!(field(&guilds, "member_count"), "3");
    assert_eq!(field(&guilds, "roles"), r#"[{"id":"r1","name":"x"},{"id":"r2","name":"y"}]"#);
}

#[test]
fn update_that_is_no_object_changes_nothing() {
    let mut guilds = cache_with_guild();
    let before = stored(&guilds);
    guilds.process_event("GUILD_UPDATE", &data("[1]"), Some(100));
    assert_eq!(stored(&guilds), before);
}

#[test]
fn deleted_guild_is_gone_with_its_channels() {
    let mut guilds = cache_with_guild();
    guilds.process_event(
        "GUILD_CREATE",
        &data(r#"{"id":"200","channels":[{"id":"9"}]}"#),
        None,
    );
    guilds.process_event("GUILD_DELETE", &data(r#"{"id":"100"}"#), Some(100));
    let stats = guilds.stats();
    assert_eq!((stats.guilds, stats.channels), (1, 1));
    assert_eq!(guilds.resolve_guild_id_for_channel(1), None);
    assert_eq!(guilds.resolve_guild_id_for_channel(9), Some(200));
}

#[test]
fn unavailable_guild_is_kept_and_announced_as_deleted() {
    let mut guilds = cache_with_guild();
    guilds.process_event("GUILD_DELETE", &data(r#"{"id":"100","unavailable":true}"#), Some(100));
    assert_eq!(guilds.stats().guilds, 1);
    assert_eq!(guilds.resolve_guild_id_for_channel(1), Some(100));
    let mut sequence: usize = 41;
    assert_eq!(
        all(guilds.get_guild_payloads(&mut sequence, None)),
        vec![r#"{"op":0,"t":"GUILD_DELETE","s":42,"d":{"id":"100","unavailable":true}}"#]
    );
    assert_eq!(sequence, 42);
    guilds.process_event("GUILD_CREATE", GUILD, None);
    assert_eq!(field(&guilds, "name"), "\"home\"");
}

#[test]
fn unavailable_needs_the_boolean() {
    let mut guilds = cache_with_guild();
    guilds.process_event("GUILD_DELETE", &data(r#"{"unavailable":"true"}"#), Some(100));
    assert_eq!(guilds.stats().guilds, 0);
}

#[test]
fn guild_can_be_unavailable_from_the_start() {
    let mut guilds = Guilds::new();
    guilds.process_event("GUILD_CREATE", &data(r#"{"id":"3","unavailable":true}"#), None);
    let mut sequence: usize = 0;
    assert_eq!(
        all(guilds.get_guild_payloads(&mut sequence, None)),
        vec![r#"{"op":0,"t":"GUILD_DELETE","s":1,"d":{"id":"3","unavailable":true}}"#]
    );
}

#[test]
fn added_channel_stands_last_and_once() {
    let mut guilds = cache_with_guild();
    guilds.process_event("CHANNEL_CREATE", &data(r#"{"id":"1","name":"again"}"#), Some(100));
    guilds.process_event("CHANNEL_CREATE", &data(r#"{"id":"8"}"#), Some(100));
    assert_eq!(
        field(&guilds, "channels"),
        r#"[{"id":"2","name":"b"},{"id":"1","name":"again"},{"id":"8"}]"#
    );
    assert_eq!(guilds.resolve_guild_id_for_channel(8), Some(100));
}

#[test]
fn added_thread_goes_to_the_threads() {
    let mut guilds = cache_with_guild();
    guilds.process_event("THREAD_CREATE", &data(r#"{"id":"6"}"#), Some(100));
    assert_eq!(field(&guilds, "threads"), r#"[{"id":"5"},{"id":"6"}]"#);
    assert_eq!(guilds.resolve_guild_id_for_channel(6), Some(100));
}

#[test]
fn channel_of_unknown_guild_is_indexed_only() {
    let mut guilds = Guilds::new();
    guilds.process_event("CHANNEL_CREATE", &data(r#"{"id":"1"}"#), Some(100));
    let stats = guilds.stats();
    assert_eq!((stats.guilds, stats.channels), (0, 1));
}

#[test]
fn channel_without_number_is_passed_over() {
    let mut guilds = cache_with_guild();
    let before = stored(&guilds);
    guilds.process_event("CHANNEL_CREATE", &data(r#"{"id":"abc"}"#), Some(100));
    guilds.process_event("CHANNEL_DELETE", &data(r#"{"id":"abc"}"#), Some(100));
    guilds.process_event("CHANNEL_UPDATE", &data(r#"{"id":1}"#), Some(100));
    assert_eq!(stored(&guilds), before);
}

#[test]
fn updated_channel_keeps_its_place() {
    let mut guilds = cache_with_guild();
    guilds.process_event("CHANNEL_UPDATE", &data(r#"{"id":"1","name":"z"}"#), Some(100));
    assert_eq!(field(&guilds, "channels"), r#"[{"id":"1","name":"z"},{"id":"2","name":"b"}]"#);
    guilds.process_event("THREAD_UPDATE", &data(r#"{"id":"5","name":"t"}"#), Some(100));
    assert_eq!(field(&guilds, "threads"), r#"[{"id":"5","name":"t"}]"#);
    guilds.process_event("CHANNEL_UPDATE", &data(r#"{"id":"77"}"#), Some(100));
    assert_eq!(field(&guilds, "channels"), r#"[{"id":"1","name":"z"},{"id":"2","name":"b"}]"#);
}

#[test]
fn deleted_channel_is_listed_nowhere() {
    let mut guilds = cache_with_guild();
    guilds.process_event("CHANNEL_DELETE", &data(r#"{"id":"1"}"#), Some(100));
    guilds.process_event("THREAD_DELETE", &data(r#"{"id":"5"}"#), Some(100));
    assert_eq!(field(&guilds, "channels"), r#"[{"id":"2","name":"b"}]"#);
    assert_eq!(field(&guilds, "threads"), "[]");
    assert_eq!(guilds.resolve_guild_id_for_channel(1), None);
    assert_eq!(guilds.resolve_guild_id_for_channel(5), None);
    assert_eq!(guilds.resolve_guild_id_for_channel(2), Some(100));
}

#[test]
fn channel_is_deleted_by_its_number() {
    let mut guilds = cache_with_guild();
    guilds.process_event("CHANNEL_DELETE", &data(r#"{"id":"+01"}"#), Some(100));
    assert_eq!(field(&guilds, "channels"), r#"[{"id":"2","name":"b"}]"#);
    assert_eq!(guilds.resolve_guild_id_for_channel(1), None);
}

#[test]
fn threads_are_listed_anew() {
    let mut guilds = cache_with_guild();
    guilds.process_event(
        "THREAD_LIST_SYNC",
        &data(r#"{"threads":[{"id":"11"},{"id":"12"}]}"#),
        Some(100),
    );
    assert_eq!(field(&guilds, "threads"), r#"[{"id":"11"},{"id":"12"}]"#);
    assert_eq!(guilds.resolve_guild_id_for_channel(11), Some(100));
    assert_eq!(guilds.resolve_guild_id_for_channel(12), Some(100));
    assert_eq!(guilds.resolve_guild_id_for_channel(5), Some(100));
    guilds.process_event("THREAD_LIST_SYNC", &data(r#"{"threads":7}"#), Some(100));
    assert_eq!(field(&guilds, "threads"), r#"[{"id":"11"},{"id":"12"}]"#);
}

#[test]
fn role_is_upserted_and_deleted() {
    let mut guilds = cache_with_guild();
    guilds.process_event("ROLE_UPDATE", &data(r#"{"role":{"id":"r1","name":"w"}}"#), Some(100));
    guilds.process_event("ROLE_CREATE", &data(r#"{"role":{"id":"r3"}}"#), Some(100));
    let listed = r#"[{"id":"r1","name":"w"},{"id":"r2","name":"y"},{"id":"r3"}]"#;
    assert_eq!(field(&guilds, "roles"), listed);
    guilds.process_event("ROLE_CREATE", &data(r#"{"role":{"id":"r3"}}"#), Some(100));
    assert_eq!(field(&guilds, "roles"), listed);
    guilds.process_event("ROLE_DELETE", &data(r#"{"role_id":"r3"}"#), Some(100));
    guilds.process_event("ROLE_DELETE", &data(r#"{"role_id":"r9"}"#), Some(100));
    guilds.process_event("ROLE_DELETE", &data(r#"{"role_id":null}"#), Some(100));
    assert_eq!(field(&guilds, "roles"), r#"[{"id":"r1","name":"w"},{"id":"r2","name":"y"}]"#);
}

#[test]
fn role_without_id_is_passed_over() {
    let mut guilds = cache_with_guild();
    let before = stored(&guilds);
    guilds.process_event("ROLE_CREATE", &data(r#"{"role":{"name":"w"}}"#), Some(100));
    guilds.process_event("ROLE_CREATE", &data("{}"), Some(100));
    assert_eq!(stored(&guilds), before);
}

#[test]
fn emojis_and_stickers_are_replaced() {
    let mut guilds = cache_with_guild();
    guilds.process_event("GUILD_EMOJIS_UPDATE", &data(r#"{"emojis":[1]}"#), Some(100));
    guilds.process_event("GUILD_STICKERS_UPDATE", &data(r#"{"stickers":[{"id":"s"}]}"#), Some(100));
    assert_eq!(field(&guilds, "emojis"), "[1]");
    assert_eq!(field(&guilds, "stickers"), r#"[{"id":"s"}]"#);
    guilds.process_event("GUILD_EMOJIS_UPDATE", &data(r#"{"emojis":null}"#), Some(100));
    assert_eq!(field(&guilds, "emojis"), "[1]");
}

#[test]
fn left_user_has_no_voice_state() {
    let mut guilds = cache_with_guild();
    guilds.process_event(
        "VOICE_STATE_UPDATE",
        &data(r#"{"user_id":"u1","channel_id":null}"#),
        Some(100),
    );
    assert_eq!(field(&guilds, "voice_states"), "[]");
}

#[test]
fn voice_state_keeps_its_member() {
    let mut guilds = cache_with_guild();
    guilds.process_event(
        "VOICE_STATE_UPDATE",
        &data(r#"{"user_id":"u1","channel_id":"1","guild_id":"100","mute":true}"#),
        Some(100),
    );
    assert_eq!(
        field(&guilds, "voice_states"),
        r#"[{"channel_id":"1","member":{"nick":"n"},"mute":true,"user_id":"u1"}]"#
    );
    guilds.process_event(
        "VOICE_STATE_UPDATE",
        &data(r#"{"user_id":"u1","channel_id":"1","member":{"nick":"m"}}"#),
        Some(100),
    );
    assert_eq!(
        field(&guilds, "voice_states"),
        r#"[{"channel_id":"1","member":{"nick":"m"},"user_id":"u1"}]"#
    );
}

#[test]
fn voice_states_are_made_where_there_are_none() {
    let mut guilds = Guilds::new();
    guilds.process_event("GUILD_CREATE", &data(r#"{"id":"100"}"#), None);
    guilds.process_event(
        "VOICE_STATE_UPDATE",
        &data(r#"{"user_id":"u1","channel_id":null}"#),
        Some(100),
    );
    assert_eq!(stored(&guilds), r#"{"id":"100"}"#);
    guilds.process_event(
        "VOICE_STATE_UPDATE",
        &data(r#"{"user_id":"u1","channel_id":"4"}"#),
        Some(100),
    );
    assert_eq!(
        stored(&guilds),
        r#"{"id":"100","voice_states":[{"channel_id":"4","user_id":"u1"}]}"#
    );
}

#[test]
fn member_is_upserted_and_refreshed_in_voice_state() {
    let mut guilds = cache_with_guild();
    guilds.process_event(
        "GUILD_MEMBER_UPDATE",
        &data(r#"{"guild_id":"100","user":{"id":"u1"},"nick":"q"}"#),
        Some(100),
    );
    assert_eq!(field(&guilds, "members"), r#"[{"nick":"q","user":{"id":"u1"}}]"#);
    assert_eq!(
        field(&guilds, "voice_states"),
        r#"[{"channel_id":"2","member":{"nick":"q","user":{"id":"u1"}},"user_id":"u1"}]"#
    );
    guilds.process_event("GUILD_MEMBER_ADD", &data(r#"{"user":{"id":"u2"}}"#), Some(100));
    assert_eq!(
        field(&guilds, "members"),
        r#"[{"nick":"q","user":{"id":"u1"}},{"user":{"id":"u2"}}]"#
    );
}

#[test]
fn removed_member_is_gone_with_the_voice_state() {
    let mut guilds = cache_with_guild();
    guilds.process_event("GUILD_MEMBER_REMOVE", &data(r#"{"user":{"id":"u1"}}"#), Some(100));
    assert_eq!(field(&guilds, "members"), "[]");
    assert_eq!(field(&guilds, "voice_states"), "[]");
}

#[test]
fn members_chunk_upserts_each() {
    let mut guilds = cache_with_guild();
    guilds.process_event(
        "GUILD_MEMBERS_CHUNK",
        &data(r#"{"members":[{"user":{"id":"u2"}},{"nick":"?"},{"user":{"id":"u1"}},{"user":{"id":"u2"},"nick":"last"}]}"#),
        Some(100),
    );
    assert_eq!(
        field(&guilds, "members"),
        r#"[{"user":{"id":"u1"}},{"nick":"last","user":{"id":"u2"}}]"#
    );
}

#[test]
fn members_chunk_makes_the_list() {
    let mut guilds = Guilds::new();
    guilds.process_event("GUILD_CREATE", &data(r#"{"id":"100"}"#), None);
    guilds.process_event("GUILD_MEMBERS_CHUNK", &data(r#"{"members":7}"#), Some(100));
    assert_eq!(stored(&guilds), r#"{"id":"100"}"#);
    guilds.process_event("GUILD_MEMBERS_CHUNK", &data(r#"{"members":[]}"#), Some(100));
    assert_eq!(stored(&guilds), r#"{"id":"100","members":[]}"#);
}

#[test]
fn arrays_that_are_missing_stay_missing() {
    let mut guilds = Guilds::new();
    guilds.process_event("GUILD_CREATE", &data(r#"{"id":"100"}"#), None);
    guilds.process_event("CHANNEL_CREATE", &data(r#"{"id":"1"}"#), Some(100));
    guilds.process_event("ROLE_CREATE", &data(r#"{"role":{"id":"r"}}"#), Some(100));
    guilds.process_event("GUILD_MEMBER_ADD", &data(r#"{"user":{"id":"u"}}"#), Some(100));
    assert_eq!(stored(&guilds), r#"{"id":"100"}"#);
}

#[test]
fn other_guilds_stay() {
    let mut guilds = cache_with_guild();
    let before = stored(&guilds);
    guilds.process_event("GUILD_CREATE", &data(r#"{"id":"200","roles":[]}"#), None);
    guilds.process_event("ROLE_CREATE", &data(r#"{"role":{"id":"r1"}}"#), Some(200));
    guilds.process_event("GUILD_DELETE", &data("{}"), Some(200));
    assert_eq!(stored(&guilds), before);
}

#[test]
fn numbers_and_escapes_come_through() {
    let mut guilds = Guilds::new();
    let text = r#"{"id":"100","a":-5,"b":18446744073709551615,"c":1.5,"d":"q\"\\\n\u0007é","e":[true,false,null]}"#;
    guilds.process_event("GUILD_CREATE", &data(text), None);
    let served = r#"{"a":-5,"b":18446744073709551615,"c":1.5,"d":"q\"\\\n\u0007é","e":[true,false,null],"id":"100"}"#;
    assert_eq!(stored(&guilds), served);
    guilds.process_event("GUILD_UPDATE", &data("{}"), Some(100));
    assert_eq!(stored(&guilds), served);
}

#[test]
fn later_of_two_members_counts() {
    let json = parse_json(r#"{"b":1,"a":2,"b":3}"#).unwrap();
    assert_eq!(print_json(&json), r#"{"a":2,"b":3}"#);
}

#[test]
fn parser_refuses_what_nests_too_deep() {
    let deep = |n: usize| format!("{}{}", "[".repeat(n), "]".repeat(n));
    assert!(parse_json(&deep(127)).is_some());
    assert!(parse_json(&deep(128)).is_none());
    let json = parse_json(&deep(127)).unwrap();
    assert_eq!(print_json(&json), deep(127));
}

#[test]
fn built_values_are_printed() {
    let mut object = JsonObject::new();
    object.insert("n".to_string(), Json::integer(12));
    object.insert("t".to_string(), Json::Text("x".to_string()));
    object.insert("n".to_string(), Json::integer(13));
    assert!(object.get("t").is_some());
    assert!(object.remove("t").is_some());
    assert!(object.remove("t").is_none());
    let copy = Json::Object(object).clone();
    assert_eq!(print_json(&copy), r#"{"n":13}"#);
    assert_eq!(print_json(&parse_json("13").unwrap()), "13");
}

#[test]
fn ready_payload_lists_guilds_as_unavailable() {
    let guilds = cache_with_guild();
    let mut ready = JsonObject::new();
    ready.insert("v".to_string(), Json::integer(10));
    ready.insert("guilds".to_string(), Json::Null);
    let mut sequence: usize = 0;
    let payload = guilds.get_ready_payload(ready, &mut sequence, None);
    assert_eq!((payload.op, payload.t, payload.s, sequence), (0, "READY", 1, 1));
    assert_eq!(
        print_json(&Json::Object(payload.d)),
        r#"{"guilds":[{"id":"100","unavailable":true}],"v":10}"#
    );
}

#[test]
fn ready_payload_keeps_the_order_given() {
    let mut sequence: usize = 6;
    let payload = ready_payload(JsonObject::new(), &vec![3, 1, 2], &mut sequence);
    assert_eq!(payload.s, 7);
    assert_eq!(
        print_json(&Json::Object(payload.d)),
        r#"{"guilds":[{"id":"3","unavailable":true},{"id":"1","unavailable":true},{"id":"2","unavailable":true}]}"#
    );
}

#[test]
fn clients_see_authorized_guilds_only() {
    let mut guilds = Guilds::new();
    for id in ["1", "2", "3"] {
        guilds.process_event("GUILD_CREATE", &data(&format!("{{\"id\":\"{id}\"}}")), None);
    }
    let mut authorized: HashSet<u64> = HashSet::new();
    authorized.insert(2);
    authorized.insert(9);
    let mut sequence: usize = 0;
    assert_eq!(
        all(guilds.get_guild_payloads(&mut sequence, Some(&authorized))),
        vec![r#"{"op":0,"t":"GUILD_CREATE","s":1,"d":{"id":"2"}}"#]
    );
    let payload = guilds.get_ready_payload(JsonObject::new(), &mut sequence, Some(&authorized));
    assert_eq!(
        print_json(&Json::Object(payload.d)),
        r#"{"guilds":[{"id":"2","unavailable":true}]}"#
    );
    assert_eq!(sequence, 2);
    assert!(all(guilds.get_guild_payloads(&mut sequence, Some(&HashSet::new()))).is_empty());
    assert_eq!(sequence, 2);
}

#[test]
fn payloads_are_numbered_on() {
    let mut guilds = Guilds::new();
    for id in ["1", "2", "3"] {
        guilds.process_event("GUILD_CREATE", &data(&format!("{{\"id\":\"{id}\"}}")), None);
    }
    let mut sequence: usize = 10;
    let numbered = all(guilds.get_guild_payloads(&mut sequence, None));
    assert_eq!((numbered.len(), sequence), (3, 13));
    for (i, payload) in numbered.iter().enumerate() {
        assert!(payload.contains(&format!("\"s\":{},", i + 11)));
    }
    let mut sequence: usize = 0;
    assert_eq!(
        all(guilds.guild_payloads(&vec![3, 1], &mut sequence)),
        vec![
            r#"{"op":0,"t":"GUILD_CREATE","s":1,"d":{"id":"3"}}"#,
            r#"{"op":0,"t":"GUILD_CREATE","s":2,"d":{"id":"1"}}"#,
        ]
    );
}

#[test]
fn events_can_be_applied_to_values() {
    let mut guilds = Guilds::new();
    guilds.apply_event(Event::GuildCreate, parse_json(GUILD), None);
    assert_eq!(guilds.stats().guilds, 1);
    guilds.apply_event(Event::GuildUpdate, parse_json(&data(r#"{"name":"p"}"#)), Some(100));
    assert_eq!(field(&guilds, "name"), "\"p\"");
    guilds.apply_event(Event::GuildDelete, None, Some(100));
    assert_eq!(guilds.stats().guilds, 0);
}

#[test]
fn changes_of_two_guilds_come_in_either_order() {
    let role_one = data(r#"{"role":{"id":"a"}}"#);
    let role_two = data(r#"{"role":{"id":"b"}}"#);
    let mut served: Vec<Vec<String>> = Vec::new();
    for swap in [false, true] {
        let mut guilds = Guilds::new();
        for id in ["1", "2"] {
            let create = data(&format!("{{\"id\":\"{id}\",\"roles\":[]}}"));
            guilds.process_event("GUILD_CREATE", &create, None);
        }
        if swap {
            guilds.process_event("ROLE_CREATE", &role_two, Some(2));
            guilds.process_event("ROLE_CREATE", &role_one, Some(1));
        } else {
            guilds.process_event("ROLE_CREATE", &role_one, Some(1));
            guilds.process_event("ROLE_CREATE", &role_two, Some(2));
        }
        let mut sequence: usize = 0;
        served.push(all(guilds.guild_payloads(&vec![1, 2], &mut sequence)));
    }
    assert_eq!(served[0], served[1]);
    assert_eq!(
        served[0][1],
        r#"{"op":0,"t":"GUILD_CREATE","s":2,"d":{"id":"2","roles":[{"id":"b"}]}}"#
    );
}

#[test]
fn events_about_unknown_guilds_make_none() {
    let mut guilds = Guilds::new();
    guilds.process_event("GUILD_UPDATE", &data(r#"{"name":"x"}"#), Some(5));
    guilds.process_event("ROLE_CREATE", &data(r#"{"role":{"id":"r"}}"#), Some(5));
    guilds.process_event("GUILD_MEMBERS_CHUNK", &data(r#"{"members":[]}"#), Some(5));
    guilds.process_event("GUILD_DELETE", &data(r#"{"unavailable":true}"#), Some(5));
    assert_eq!(guilds.stats().guilds, 0);
}

#[test]
fn of_two_voice_states_the_last_gives_its_member() {
    let mut guilds = Guilds::new();
    guilds.process_event(
        "GUILD_CREATE",
        &data(r#"{"id":"100","voice_states":[{"user_id":"u","member":{"nick":"one"}},{"user_id":"w"},{"user_id":"u","member":{"nick":"two"}}]}"#),
        None,
    );
    guilds.process_event(
        "VOICE_STATE_UPDATE",
        &data(r#"{"user_id":"u","channel_id":"4","member":null}"#),
        Some(100),
    );
    assert_eq!(
        field(&guilds, "voice_states"),
        r#"[{"user_id":"w"},{"channel_id":"4","member":{"nick":"two"},"user_id":"u"}]"#
    );
}

#[test]
fn payloads_are_numbered_as_they_are_taken() {
    let mut guilds = Guilds::new();
    for id in ["1", "2", "3"] {
        guilds.process_event("GUILD_CREATE", &data(&format!("{{\"id\":\"{id}\"}}")), None);
    }
    let mut sequence: usize = 10;
    let mut payloads = guilds.guild_payloads(&vec![2, 3, 1], &mut sequence);
    assert_eq!(
        payloads.next().unwrap(),
        r#"{"op":0,"t":"GUILD_CREATE","s":11,"d":{"id":"2"}}"#
    );
    assert_eq!(sequence, 11);
    let _ = guilds.get_guild_payloads(&mut sequence, None);
    assert_eq!(sequence, 11);
    let mut payloads = guilds.guild_payloads(&vec![1], &mut sequence);
    assert!(payloads.next().is_some());
    assert!(payloads.next().is_none());
    assert!(payloads.next().is_none());
    assert_eq!(sequence, 12);
}

#[test]
fn payloads_are_those_of_the_call() {
    let mut guilds = cache_with_guild();
    let mut sequence: usize = usize::MAX - 1;
    let mut payloads = guilds.get_guild_payloads(&mut sequence, None);
    guilds.process_event("GUILD_DELETE", &data("{}"), Some(100));
    assert!(payloads.next().unwrap().contains("\"name\":\"home\""));
    assert!(payloads.next().is_none());
    assert_eq!(sequence, usize::MAX);
}

#[test]
fn listed_channels_resolve_after_a_history() {
    let mut guilds = cache_with_guild();
    let events = [
        ("CHANNEL_CREATE", r#"{"id":"8"}"#),
        ("CHANNEL_DELETE", r#"{"id":"1"}"#),
        ("THREAD_LIST_SYNC", r#"{"threads":[{"id":"11"},{"id":"12"}]}"#),
        ("CHANNEL_UPDATE", r#"{"id":"2","name":"c"}"#),
        ("THREAD_DELETE", r#"{"id":"11"}"#),
        ("GUILD_UPDATE", r#"{"name":"new"}"#),
    ];
    for (name, text) in events {
        guilds.process_event(name, &data(text), Some(100));
        guilds.process_event("GUILD_CREATE", &data(r#"{"id":"7","channels":[{"id":"70"}]}"#), None);
        guilds.process_event("GUILD_DELETE", "{}", Some(7));
        let json = parse_json(&stored(&guilds)).unwrap();
        for key in ["channels", "threads"] {
            for item in json.array_at(key).unwrap() {
                let id: u64 = item.text_at("id").unwrap().parse().unwrap();
                assert_eq!(guilds.resolve_guild_id_for_channel(id), Some(100));
            }
        }
    }
    assert_eq!(field(&guilds, "channels"), r#"[{"id":"2","name":"c"},{"id":"8"}]"#);
    assert_eq!(field(&guilds, "threads"), r#"[{"id":"12"}]"#);
}

#[test]
fn deleting_an_added_channel_gives_the_guild_back() {
    let mut guilds = cache_with_guild();
    let before = stored(&guilds);
    for (create, delete) in
        [("CHANNEL_CREATE", "CHANNEL_DELETE"), ("THREAD_CREATE", "THREAD_DELETE")]
    {
        guilds.process_event(create, &data(r#"{"id":"44"}"#), Some(100));
        assert_ne!(stored(&guilds), before);
        guilds.process_event(delete, &data(r#"{"id":"44"}"#), Some(100));
        assert_eq!(stored(&guilds), before);
    }
}

#[test]
fn new_members_follow_in_order_and_once() {
    let mut guilds = cache_with_guild();
    guilds.process_event(
        "GUILD_MEMBERS_CHUNK",
        &data(r#"{"members":[{"user":{"id":"c"}},{"user":{"id":"u1"}},{"user":{"id":"a"}},{"user":{"id":"c"}},{"user":{"id":"b"}}]}"#),
        Some(100),
    );
    assert_eq!(
        field(&guilds, "members"),
        r#"[{"user":{"id":"u1"}},{"user":{"id":"c"}},{"user":{"id":"a"}},{"user":{"id":"b"}}]"#
    );
}
