use gateway_proxy::auth::{
    authenticate_gateway_token, authenticate_holder, normalize_gateway_token, AuthConfig,
};
use gateway_proxy::clock::secs_since_epoch;
use gateway_proxy::db_config::{
    authenticate_client_at, authenticate_client_with_id, group_clients, normalize_database_url, reconnect_step,
    should_reject_stale_client_data, ClientConfig, ClientRegistry, ClientRow, POLL_PAUSE_SECS,
    RECONNECT_PAUSE_SECS,
};
use gateway_proxy::state::SessionPrincipal;
use gateway_proxy::string_map::StringMap;
use gateway_proxy::text::{decimal_text, parse_number};
use gateway_proxy::wake::{authorization_header, wake_endpoint};
use std::collections::HashSet;
use std::time::{Duration, SystemTime, UNIX_EPOCH};

fn guilds(ids: &[u64]) -> HashSet<u64> {
    ids.iter().copied().collect()
}

fn registry() -> ClientRegistry {
    let mut clients: StringMap<ClientConfig> = StringMap::new();
    clients.insert(
        "us-east".to_string(),
        ClientConfig { secret: "s:1".to_string(), guilds: guilds(&[1, 2]) },
    );
    ClientRegistry::new(clients)
}

fn row(client_id: &str, secret: &str, guild_id: &str) -> ClientRow {
    ClientRow {
        client_id: client_id.to_string(),
        secret: secret.to_string(),
        guild_id: guild_id.to_string(),
    }
}

fn config(validate_token: bool) -> AuthConfig {
    AuthConfig { token: "bot-token".to_string(), validate_token }
}

#[test]
fn client_is_found_by_id_and_secret() {
    let registry = registry();
    assert_eq!(
        authenticate_client_with_id(&registry, false, "us-east:s:1"),
        Some(("us-east".to_string(), guilds(&[1, 2])))
    );
    for token in ["us-east:s", "us-east:", "us-east", "", ":s:1", "us-east:s:1 ", "other:s:1"] {
        assert_eq!(authenticate_client_with_id(&registry, false, token), None);
    }
}

#[test]
fn client_id_with_colon_is_not_found() {
    let mut clients: StringMap<ClientConfig> = StringMap::new();
    clients.insert(
        "a:b".to_string(),
        ClientConfig { secret: "s".to_string(), guilds: HashSet::new() },
    );
    let registry = ClientRegistry::new(clients);
    assert_eq!(authenticate_client_with_id(&registry, false, "a:b:s"), None);
}

#[test]
fn stale_data_let_nobody_in() {
    let mut registry = registry();
    registry.last_successful_poll = 1000;
    let token = "us-east:s:1";
    assert!(authenticate_client_at(&registry, true, token, Some(1030)).is_some());
    assert!(authenticate_client_at(&registry, true, token, Some(1031)).is_none());
    assert!(authenticate_client_at(&registry, true, token, Some(10)).is_some());
    assert!(authenticate_client_at(&registry, true, token, None).is_some());
    assert!(authenticate_client_at(&registry, false, token, Some(1031)).is_some());
    registry.last_successful_poll = 0;
    assert!(authenticate_client_at(&registry, true, token, Some(1031)).is_some());
}

#[test]
fn staleness_has_its_limit() {
    assert!(!should_reject_stale_client_data(true, 100, Some(130)));
    assert!(should_reject_stale_client_data(true, 100, Some(131)));
    assert!(!should_reject_stale_client_data(true, 0, Some(131)));
    assert!(!should_reject_stale_client_data(false, 100, Some(131)));
    assert!(!should_reject_stale_client_data(true, 100, None));
    assert!(!should_reject_stale_client_data(true, 100, Some(0)));
}

#[test]
fn poll_replaces_the_clients() {
    let mut registry = registry();
    registry.record_poll_at(&vec![row("new", "n", "5")], Some(77));
    assert_eq!(registry.last_successful_poll, 77);
    assert!(authenticate_client_at(&registry, true, "us-east:s:1", Some(78)).is_none());
    assert_eq!(
        authenticate_client_at(&registry, true, "new:n", Some(78)),
        Some(("new".to_string(), guilds(&[5])))
    );
    registry.record_poll_at(&Vec::new(), None);
    assert_eq!(registry.last_successful_poll, 77);
    assert_eq!(registry.clients.len(), 0);
}

#[test]
fn poll_goes_by_the_clock() {
    let mut registry = registry();
    registry.record_poll(&vec![row("new", "n", "5")]);
    assert!(registry.last_successful_poll > 1_600_000_000);
    assert!(authenticate_client_with_id(&registry, true, "new:n").is_some());
    registry.last_successful_poll = 1;
    assert!(authenticate_client_with_id(&registry, true, "new:n").is_none());
}

#[test]
fn rows_are_grouped_by_client() {
    let clients = group_clients(&vec![
        row("a", "first", "x"),
        row("b", "sb", "7"),
        row("a", "s1", "1"),
        row("a", "s2", "2"),
        row("a", "s1", "1"),
        row("c", "sc", "-1"),
    ]);
    assert_eq!(clients.len(), 2);
    let a = clients.get("a").unwrap();
    assert_eq!(a.secret, "s1");
    assert_eq!(a.guilds, guilds(&[1, 2]));
    let b = clients.get("b").unwrap();
    assert_eq!((b.secret.as_str(), b.guilds.len()), ("sb", 1));
    assert!(clients.get("c").is_none());
}

#[test]
fn database_url_is_normalized() {
    assert_eq!(
        normalize_database_url("postgres://h/db?sslmode=verify-full&x=1"),
        "postgres://h/db?sslmode=require&x=1"
    );
    assert_eq!(
        normalize_database_url("sslmode=verify-ca sslmode=verify-full"),
        "sslmode=require sslmode=require"
    );
    assert_eq!(normalize_database_url("a?sslmode=prefer"), "a?sslmode=prefer");
    assert_eq!(normalize_database_url("sslmode=verify-fu"), "sslmode=verify-fu");
    assert_eq!(normalize_database_url(""), "");
}

#[test]
fn normalizing_again_changes_nothing() {
    let once = normalize_database_url("sssslmode=verify-calmode=verify-full?sslmode=verify-full");
    assert_eq!(normalize_database_url(&once), once);
    assert!(!once.contains("sslmode=verify-full"));
    assert!(!once.contains("sslmode=verify-ca"));
}

#[test]
fn token_is_the_last_word() {
    assert_eq!(normalize_gateway_token("Bot abc.def"), "abc.def");
    assert_eq!(normalize_gateway_token("abc"), "abc");
    assert_eq!(normalize_gateway_token("  Bearer \t x\n"), "x");
    assert_eq!(normalize_gateway_token("a\u{3000}é\u{85}"), "é");
    assert_eq!(normalize_gateway_token(" \u{a0} "), "");
    assert_eq!(normalize_gateway_token(""), "");
    assert_eq!(normalize_gateway_token("a\u{200b}b"), "a\u{200b}b");
}

#[test]
fn client_comes_before_the_bot() {
    let context =
        authenticate_gateway_token(&config(true), &registry(), false, "us-east:s:1").unwrap();
    assert_eq!(context.principal, SessionPrincipal::Client("us-east".to_string()));
    assert_eq!(*context.authorized_guilds.unwrap(), guilds(&[1, 2]));
    let mut clash = config(true);
    clash.token = "us-east:s:1".to_string();
    let context = authenticate_gateway_token(&clash, &registry(), false, "us-east:s:1").unwrap();
    assert_eq!(context.principal, SessionPrincipal::Client("us-east".to_string()));
}

#[test]
fn bot_token_gets_in_for_all_guilds() {
    let context =
        authenticate_gateway_token(&config(true), &registry(), false, "bot-token").unwrap();
    assert_eq!(context.principal, SessionPrincipal::BotToken);
    assert!(context.authorized_guilds.is_none());
}

#[test]
fn other_tokens_depend_on_the_configuration() {
    assert!(authenticate_gateway_token(&config(true), &registry(), false, "what").is_none());
    let context = authenticate_gateway_token(&config(false), &registry(), false, "what").unwrap();
    assert_eq!(context.principal, SessionPrincipal::Unvalidated("what".to_string()));
    assert!(context.authorized_guilds.is_none());
}

#[test]
fn holder_decides() {
    let client = Some(("x".to_string(), guilds(&[3])));
    let context = authenticate_holder(&config(true), client, "bot-token").unwrap();
    assert_eq!(context.principal, SessionPrincipal::Client("x".to_string()));
    assert!(authenticate_holder(&config(true), None, "x:y").is_none());
}

#[test]
fn wake_request_goes_to_the_client() {
    assert_eq!(wake_endpoint("https://h"), "https://h/kimaki/wake");
    assert_eq!(wake_endpoint("https://h/p//"), "https://h/p/kimaki/wake");
    assert_eq!(wake_endpoint("///"), "/kimaki/wake");
    assert_eq!(wake_endpoint(""), "/kimaki/wake");
    assert_eq!(authorization_header("t k"), "Bearer t k");
}

#[test]
fn numbers_read_as_written() {
    assert_eq!(decimal_text(0), "0");
    assert_eq!(decimal_text(18446744073709551615), "18446744073709551615");
    assert_eq!(parse_number("18446744073709551615"), Some(u64::MAX));
    assert_eq!(parse_number("18446744073709551616"), None);
    assert_eq!(parse_number("007"), Some(7));
    assert_eq!(parse_number("+7"), Some(7));
    for text in ["", "+", "-7", "7a", " 7", "++7", "\u{0667}"] {
        assert_eq!(parse_number(text), None);
    }
}

#[test]
fn poll_time_is_in_unix_seconds() {
    let secs = || SystemTime::now().duration_since(UNIX_EPOCH).unwrap().as_secs();
    let mut registry = registry();
    let before = secs();
    registry.record_poll(&Vec::new());
    let after = secs();
    assert!(before <= registry.last_successful_poll);
    assert!(registry.last_successful_poll <= after);
}

#[test]
fn unix_seconds_are_whole() {
    assert_eq!(secs_since_epoch(UNIX_EPOCH), Some(0));
    assert_eq!(secs_since_epoch(UNIX_EPOCH + Duration::from_millis(1_999)), Some(1));
    assert_eq!(secs_since_epoch(UNIX_EPOCH - Duration::from_secs(1)), None);
}

#[test]
fn failing_poll_ends_the_loop_and_changes_nothing() {
    assert_eq!((POLL_PAUSE_SECS, RECONNECT_PAUSE_SECS), (1, 5));
    let mut registry = registry();
    let failed: Result<u64, String> = registry.poll_step(Err("down".to_string()));
    assert_eq!(failed, Err("down".to_string()));
    assert_eq!(registry.last_successful_poll, 0);
    assert_eq!(registry.clients.len(), 1);
    let first: Result<u64, String> = registry.poll_step_at(Ok(vec![row("a", "s", "1")]), Some(50));
    assert_eq!(first, Ok(1));
    let second: Result<u64, String> = registry.poll_step_at(Ok(vec![row("b", "t", "2")]), Some(51));
    assert_eq!(second, Ok(1));
    assert!(registry.clients.get("a").is_none());
    assert!(registry.clients.get("us-east").is_none());
    let failed: Result<u64, String> = registry.poll_step_at(Err("gone".to_string()), Some(90));
    assert_eq!(failed, Err("gone".to_string()));
    assert_eq!(registry.last_successful_poll, 51);
    assert_eq!(registry.clients.get("b").unwrap().guilds, guilds(&[2]));
}

#[test]
fn poll_step_goes_by_the_clock() {
    let mut registry = registry();
    let step: Result<u64, String> = registry.poll_step(Ok(Vec::new()));
    assert_eq!(step, Ok(1));
    assert!(registry.last_successful_poll > 1_600_000_000);
    assert_eq!(registry.clients.len(), 0);
}

#[test]
fn database_is_connected_to_again_after_an_error() {
    assert_eq!(reconnect_step::<String>(Err("down".to_string())), Some(5));
    assert_eq!(reconnect_step::<String>(Ok(())), None);
}

#[test]
fn poll_time_can_be_noted_alone() {
    let mut registry = registry();
    registry.mark_poll_success(Some(12));
    registry.mark_poll_success(None);
    assert_eq!(registry.last_successful_poll, 12);
    assert!(registry.clients.contains_key("us-east"));
}
