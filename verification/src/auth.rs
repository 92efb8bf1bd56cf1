//! Authentication shared by the gateway and the REST proxy.
use crate::clock::unix_secs;
use crate::db_config::{
    authenticate_client_with_id, client_view, law_client_is_found_by_token,
    law_fresh_data_are_trusted, ClientRegistry,
};
use crate::state::{PrincipalView, SessionPrincipal};
use crate::text::{
    find_last_word, is_word, last_word, law_last_word_behind, law_last_word_is_a_word,
    law_last_word_of_word, str_eq,
};
use std::collections::HashSet;
use std::sync::Arc;
use std::time::SystemTime;
use vstd::prelude::*;

verus! {

/// What the configuration says on tokens.
pub struct AuthConfig {
    /// The token of the bot.
    pub token: String,
    /// Whether tokens that belong to nobody are turned away.
    pub validate_token: bool,
}

/// Who holds a token, and which guilds it is for; `None` means all of them.
pub struct AuthContext {
    pub principal: SessionPrincipal,
    pub authorized_guilds: Option<Arc<HashSet<u64>>>,
}

/// Who holds a token, and which guilds it is for.
pub struct AuthView {
    pub principal: PrincipalView,
    pub guilds: Option<Set<u64>>,
}

/// What an authentication gives.
pub open spec fn context_view(context: Option<AuthContext>) -> Option<AuthView> {
    match context {
        Some(context) => Some(
            AuthView {
                principal: context.principal@,
                guilds: match context.authorized_guilds {
                    Some(guilds) => Some(guilds@),
                    None => None,
                },
            },
        ),
        None => None,
    }
}

/// Who holds a token, given the client that it belongs to. A client comes first,
/// then the bot. Any other token is turned away, or taken unchecked.
pub open spec fn authenticated(
    config: AuthConfig,
    client: Option<(Seq<char>, Set<u64>)>,
    token: Seq<char>,
) -> Option<AuthView> {
    match client {
        Some((id, guilds)) => Some(
            AuthView { principal: PrincipalView::Client(id), guilds: Some(guilds) },
        ),
        None => if token == config.token@ {
            Some(AuthView { principal: PrincipalView::BotToken, guilds: None })
        } else if config.validate_token {
            None
        } else {
            Some(AuthView { principal: PrincipalView::Unvalidated(token), guilds: None })
        },
    }
}

/// The token in the value of an authorization header: its last word.
pub fn normalize_gateway_token(token: &str) -> (r: &str)
    ensures
        r@ == last_word(token@),
{
    find_last_word(token)
}

/// Who holds a token.
pub fn authenticate_gateway_token(
    config: &AuthConfig,
    registry: &ClientRegistry,
    database_configured: bool,
    token: &str,
) -> (r: Option<AuthContext>)
    ensures
        exists|time: SystemTime|
            context_view(r) == authenticated(
                *config,
                registry.holder(database_configured, token@, #[trigger] unix_secs(time)),
                token@,
            ),
{
    let client = authenticate_client_with_id(registry, database_configured, token);
    authenticate_holder(config, client, token)
}

/// Who holds a token, given the client that it belongs to.
pub fn authenticate_holder(
    config: &AuthConfig,
    client: Option<(String, HashSet<u64>)>,
    token: &str,
) -> (r: Option<AuthContext>)
    ensures
        context_view(r) == authenticated(*config, client_view(client), token@),
{
    if let Some((id, guilds)) = client {
        return Some(
            AuthContext {
                principal: SessionPrincipal::Client(id),
                authorized_guilds: Some(Arc::new(guilds)),
            },
        );
    }
    if str_eq(token, config.token.as_str()) {
        return Some(
            AuthContext { principal: SessionPrincipal::BotToken, authorized_guilds: None },
        );
    }
    if config.validate_token {
        return None;
    }
    Some(
        AuthContext {
            principal: SessionPrincipal::Unvalidated(token.to_owned()),
            authorized_guilds: None,
        },
    )
}

/// A token has no white space in it, and stays as it is when it is normalized
/// again.
pub proof fn law_normalized_token_is_a_word(value: Seq<char>)
    ensures
        is_word(last_word(value)),
        last_word(last_word(value)) == last_word(value),
{
    law_last_word_is_a_word(value);
    law_last_word_of_word(last_word(value));
}

/// A token is found behind the name of an authorization scheme, whatever the name.
pub proof fn law_scheme_is_dropped(scheme: Seq<char>, token: Seq<char>)
    requires
        token.len() > 0,
        is_word(token),
    ensures
        last_word(scheme.push(' ') + token) == token,
{
    law_last_word_behind(scheme.push(' '), token);
}

/// A client gets in as itself and for its own guilds only, whatever the
/// configuration says of the token.
pub proof fn law_client_comes_first(
    config: AuthConfig,
    id: Seq<char>,
    guilds: Set<u64>,
    token: Seq<char>,
)
    ensures
        authenticated(config, Some((id, guilds)), token) == Some(
            AuthView { principal: PrincipalView::Client(id), guilds: Some(guilds) },
        ),
{
}

/// The bot's token gets in for all guilds, even where tokens are validated.
pub proof fn law_bot_token_gets_in(config: AuthConfig)
    ensures
        authenticated(config, None, config.token@) == Some(
            AuthView { principal: PrincipalView::BotToken, guilds: None },
        ),
{
}

/// Where tokens are validated, a token that belongs to no client and is not the
/// bot's is turned away; else nobody is.
pub proof fn law_turned_away_where_validated(
    config: AuthConfig,
    client: Option<(Seq<char>, Set<u64>)>,
    token: Seq<char>,
)
    ensures
        authenticated(config, client, token) is None <==> config.validate_token && client is None
            && token != config.token@,
{
}

/// Whoever gets in for all guilds is no client.
pub proof fn law_clients_are_restricted(
    config: AuthConfig,
    client: Option<(Seq<char>, Set<u64>)>,
    token: Seq<char>,
)
    ensures
        authenticated(config, client, token) matches Some(context) ==> (context.guilds is None
            <==> client is None) && (context.principal is Client <==> client is Some),
{
}

/// A token that is neither a client's nor the bot's is taken for what it is, for all
/// guilds, where tokens are not validated.
pub proof fn law_unvalidated_token_gets_in(config: AuthConfig, token: Seq<char>)
    requires
        token != config.token@,
        !config.validate_token,
    ensures
        authenticated(config, None, token) == Some(
            AuthView { principal: PrincipalView::Unvalidated(token), guilds: None },
        ),
{
}

/// What an authentication gives are the principal and the guilds of the context.
pub proof fn law_context_is_told(context: AuthContext)
    ensures
        context_view(None) is None,
        context_view(Some(context)) matches Some(view) && view.principal == context.principal@ && (
        match (context.authorized_guilds, view.guilds) {
            (Some(guilds), Some(set)) => set == guilds@,
            (None, None) => true,
            _ => false,
        }),
{
}

/// Whose token `id:secret` is, for a client that is known by that id and secret while
/// its data are trusted: the client's, with its own guilds, whatever else is so.
pub proof fn law_client_token_is_the_clients(
    config: AuthConfig,
    registry: ClientRegistry,
    database_configured: bool,
    id: Seq<char>,
    now: Option<u64>,
)
    requires
        registry.clients@.contains_key(id),
        !id.contains(':'),
        !database_configured || registry.last_successful_poll == 0 || now is None || now->Some_0
            - registry.last_successful_poll <= 30,
    ensures
        ({
            let token = id.push(':') + registry.clients@[id].secret@;
            authenticated(config, registry.holder(database_configured, token, now), token) == Some(
                AuthView {
                    principal: PrincipalView::Client(id),
                    guilds: Some(registry.clients@[id].guilds@),
                },
            )
        }),
{
    law_fresh_data_are_trusted(
        registry,
        database_configured,
        id.push(':') + registry.clients@[id].secret@,
        now,
    );
    law_client_is_found_by_token(registry.clients@, id);
}

} // verus!
