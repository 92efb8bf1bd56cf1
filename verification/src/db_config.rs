//! The clients of the proxy, and where their data come from.
//!
//! The registry starts with the clients of the configuration. Where a database
//! is configured, each poll of it puts other clients in their place.
use crate::clock::{unix_now_secs, unix_secs};
use crate::string_map::StringMap;
use crate::text::{
    clash, keeps_apart, law_nothing_to_replace, law_replace_at_start, law_replace_keeps_others,
    law_replaced_text_is_free_of, law_split_is_at_the_first, law_split_undoes_join, number_of,
    occurs, occurs_at, parse_number, replace_all, replaced_all, split_at_first, split_first, str_eq,
};
use std::collections::HashSet;
use std::time::SystemTime;
use vstd::prelude::*;

verus! {

broadcast use vstd::std_specs::hash::group_hash_axioms;

/// How many seconds lie between a poll and the next.
pub const POLL_PAUSE_SECS: u64 = 1;

/// How many seconds pass before the database is connected to again.
pub const RECONNECT_PAUSE_SECS: u64 = 5;

/// After how many seconds without a successful poll the data of the clients are
/// no longer trusted.
pub const CLIENT_DATA_STALE_AFTER_SECS: u64 = 30;

/// What is known of a client.
pub struct ClientConfig {
    pub secret: String,
    /// The guilds that the client is authorized for.
    pub guilds: HashSet<u64>,
}

/// A row of the table of clients: one for each guild of a client.
pub struct ClientRow {
    pub client_id: String,
    pub secret: String,
    pub guild_id: String,
}

/// The clients by their ids, and when the database was last polled.
pub struct ClientRegistry {
    pub clients: StringMap<ClientConfig>,
    /// When a poll last succeeded, in seconds since the Unix epoch; 0 before the
    /// first time.
    pub last_successful_poll: u64,
}

/// Whether the data of the clients are too old to be trusted. They are not before
/// the first poll, nor while the clock cannot be read.
pub open spec fn is_stale(database_configured: bool, last_success: u64, now: Option<u64>) -> bool {
    &&& database_configured
    &&& last_success != 0
    &&& now is Some
    &&& now->Some_0 - last_success > CLIENT_DATA_STALE_AFTER_SECS
}

/// The id and the guilds of the client whose token is `id:secret`.
pub open spec fn client_of(clients: Map<Seq<char>, ClientConfig>, token: Seq<char>) -> Option<
    (Seq<char>, Set<u64>),
> {
    match split_at_first(token, ':') {
        Some((id, secret)) => if clients.contains_key(id) && clients[id].secret@ == secret {
            Some((id, clients[id].guilds@))
        } else {
            None
        },
        None => None,
    }
}

/// What an authentication gives.
pub open spec fn client_view(client: Option<(String, HashSet<u64>)>) -> Option<
    (Seq<char>, Set<u64>),
> {
    match client {
        Some((id, guilds)) => Some((id@, guilds@)),
        None => None,
    }
}

/// What is known of a client.
pub struct ClientView {
    pub secret: Seq<char>,
    pub guilds: Set<u64>,
}

/// The clients by their ids, and when the database was last polled.
#[verifier::ext_equal]
pub struct RegistryView {
    pub clients: Map<Seq<char>, ClientView>,
    pub last_successful_poll: u64,
}

/// What is known of each client.
pub open spec fn clients_view(clients: Map<Seq<char>, ClientConfig>) -> Map<
    Seq<char>,
    ClientView,
> {
    clients.map_values(
        |client: ClientConfig| ClientView { secret: client.secret@, guilds: client.guilds@ },
    )
}

/// What came of a poll: the rows and the time, or why it failed.
pub enum PollView<E> {
    Rows(Seq<ClientRow>, Option<u64>),
    Failed(E),
}

impl RegistryView {
    /// The registry after a poll that succeeded.
    pub open spec fn polled(self, rows: Seq<ClientRow>, now: Option<u64>) -> RegistryView {
        RegistryView {
            clients: grouped(rows),
            last_successful_poll: poll_time(self.last_successful_poll, now),
        }
    }
}

/// The registry after some polls, and why the loop of polls ended, `None` while it
/// goes on.
pub open spec fn poll_loop<E>(registry: RegistryView, polls: Seq<PollView<E>>) -> (
    RegistryView,
    Option<E>,
)
    decreases polls.len(),
{
    if polls.len() == 0 {
        (registry, None)
    } else {
        match polls[0] {
            PollView::Rows(rows, now) => poll_loop(registry.polled(rows, now), polls.skip(1)),
            PollView::Failed(error) => (registry, Some(error)),
        }
    }
}

impl ClientRegistry {
    pub open spec fn view(self) -> RegistryView {
        RegistryView {
            clients: clients_view(self.clients@),
            last_successful_poll: self.last_successful_poll,
        }
    }

    /// Who holds a token at the time `now`: nobody, while the data are stale.
    pub open spec fn holder(self, database_configured: bool, token: Seq<char>, now: Option<u64>)
        -> Option<(Seq<char>, Set<u64>)> {
        if is_stale(database_configured, self.last_successful_poll, now) {
            None
        } else {
            client_of(self.clients@, token)
        }
    }

    /// The registry with the clients of the configuration.
    pub fn new(clients: StringMap<ClientConfig>) -> (r: ClientRegistry)
        ensures
            r.clients == clients,
            r.last_successful_poll == 0,
    {
        ClientRegistry { clients, last_successful_poll: 0 }
    }

    /// Takes what came of a poll. After one that succeeded its clients stand in the
    /// place of the others, and the next poll is due in so many seconds; one that
    /// failed changes nothing and ends the loop of polls.
    pub fn poll_step<E>(&mut self, outcome: Result<Vec<ClientRow>, E>) -> (r: Result<u64, E>)
        ensures
            match outcome {
                Ok(rows) => r == Ok::<u64, E>(POLL_PAUSE_SECS) && exists|time: SystemTime|
                    final(self)@ == old(self)@.polled(rows@, #[trigger] unix_secs(time)),
                Err(error) => r == Err::<u64, E>(error) && *final(self) == *old(self),
            },
    {
        self.poll_step_at(outcome, unix_now_secs())
    }

    /// Takes what came of a poll at the time `now`.
    pub fn poll_step_at<E>(&mut self, outcome: Result<Vec<ClientRow>, E>, now: Option<u64>) -> (r:
        Result<u64, E>)
        ensures
            match outcome {
                Ok(rows) => r == Ok::<u64, E>(POLL_PAUSE_SECS) && final(self)@
                    == old(self)@.polled(rows@, now),
                Err(error) => r == Err::<u64, E>(error) && *final(self) == *old(self),
            },
    {
        match outcome {
            Ok(rows) => {
                self.record_poll_at(&rows, now);
                Ok(POLL_PAUSE_SECS)
            },
            Err(error) => Err(error),
        }
    }

    /// Puts the clients of a successful poll in the place of the others.
    pub fn record_poll(&mut self, rows: &Vec<ClientRow>)
        ensures
            is_grouping(final(self).clients@, rows@),
            exists|time: SystemTime|
                final(self)@ == old(self)@.polled(rows@, #[trigger] unix_secs(time)),
    {
        self.record_poll_at(rows, unix_now_secs())
    }

    /// Puts the clients of a poll that succeeded at the time `now` in the place of
    /// the others.
    pub fn record_poll_at(&mut self, rows: &Vec<ClientRow>, now: Option<u64>)
        ensures
            is_grouping(final(self).clients@, rows@),
            final(self)@ == old(self)@.polled(rows@, now),
    {
        self.clients = group_clients(rows);
        self.mark_poll_success(now);
        proof {
            lemma_grouped(self.clients@, rows@);
        }
    }

    /// Notes that a poll succeeded at the time `now`.
    pub fn mark_poll_success(&mut self, now: Option<u64>)
        ensures
            final(self).clients == old(self).clients,
            final(self).last_successful_poll == poll_time(old(self).last_successful_poll, now),
    {
        if let Some(secs) = now {
            self.last_successful_poll = secs;
        }
    }
}

/// After how many seconds the database is connected to again, given how the loop of
/// polls ended: not at all where it ended without an error.
pub fn reconnect_step<E>(outcome: Result<(), E>) -> (r: Option<u64>)
    ensures
        r == (match outcome {
            Ok(_) => None,
            Err(_) => Some(RECONNECT_PAUSE_SECS),
        }),
{
    match outcome {
        Ok(_) => None,
        Err(_) => Some(RECONNECT_PAUSE_SECS),
    }
}

/// When a poll last succeeded, after one at the time `now`.
pub open spec fn poll_time(last_success: u64, now: Option<u64>) -> u64 {
    match now {
        Some(secs) => secs,
        None => last_success,
    }
}

/// Whether the data of the clients are too old to be trusted.
pub fn should_reject_stale_client_data(
    database_configured: bool,
    last_success: u64,
    now: Option<u64>,
) -> (r: bool)
    ensures
        r == is_stale(database_configured, last_success, now),
{
    if !database_configured || last_success == 0 {
        return false;
    }
    match now {
        Some(secs) => secs.saturating_sub(last_success) > CLIENT_DATA_STALE_AFTER_SECS,
        None => false,
    }
}

/// A copy of a set of guilds.
fn copy_guilds(guilds: &HashSet<u64>) -> (r: HashSet<u64>)
    ensures
        r@ == guilds@,
{
    let mut out: HashSet<u64> = HashSet::new();
    for guild in it: guilds.iter()
        invariant
            it.seq().unref().to_set() == guilds@,
            it.seq().unref().len() == it.seq().len(),
            forall|g: u64| #[trigger] out@.contains(g) ==> guilds@.contains(g),
            forall|g: u64| #[trigger]
                guilds@.contains(g) ==> out@.contains(g) || exists|j: int|
                    it.index() <= j < it.seq().len() && *(#[trigger] it.seq()[j]) == g,
    {
        assert(guilds@.contains(*guild)) by {
            assert(it.seq().unref()[it.index()] == *guild);
            assert(it.seq().unref().contains(*guild));
        }
        let ghost before = out@;
        out.insert(*guild);
        assert forall|g: u64| #[trigger] guilds@.contains(g) implies out@.contains(g) || exists|
            j: int,
        |
            it.index() + 1 <= j < it.seq().len() && *(#[trigger] it.seq()[j]) == g by {
            if !before.contains(g) {
                let j = choose|j: int|
                    it.index() <= j < it.seq().len() && *(#[trigger] it.seq()[j]) == g;
                assert(*it.seq()[j] == g);
            }
        }
    }
    assert(out@ =~= guilds@);
    out
}

/// Authenticate a WebSocket client by "client_id:secret" token. Gives the client
/// ID and the set of authorized guild IDs if authentication succeeds.
pub fn authenticate_client_with_id(
    registry: &ClientRegistry,
    database_configured: bool,
    token: &str,
) -> (r: Option<(String, HashSet<u64>)>)
    ensures
        exists|time: SystemTime|
            client_view(r) == registry.holder(
                database_configured,
                token@,
                #[trigger] unix_secs(time),
            ),
{
    authenticate_client_at(registry, database_configured, token, unix_now_secs())
}

/// Authenticate a WebSocket client by "client_id:secret" token at the time `now`.
pub fn authenticate_client_at(
    registry: &ClientRegistry,
    database_configured: bool,
    token: &str,
    now: Option<u64>,
) -> (r: Option<(String, HashSet<u64>)>)
    ensures
        client_view(r) == registry.holder(database_configured, token@, now),
{
    if should_reject_stale_client_data(database_configured, registry.last_successful_poll, now) {
        return None;
    }
    match split_first(token, ':') {
        Some((id, secret)) => match registry.clients.get(id) {
            Some(client) => if str_eq(client.secret.as_str(), secret) {
                Some((id.to_owned(), copy_guilds(&client.guilds)))
            } else {
                None
            },
            None => None,
        },
        None => None,
    }
}

/// Whether a row is about a client, and its guild id reads as a number.
pub open spec fn is_row_of(row: ClientRow, id: Seq<char>) -> bool {
    row.client_id@ == id && number_of(row.guild_id@) is Some
}

/// Whether a row is about a client and the given guild.
pub open spec fn grants(row: ClientRow, id: Seq<char>, guild: u64) -> bool {
    row.client_id@ == id && number_of(row.guild_id@) == Some(guild)
}

/// Whether `i` is the first row about a client whose guild id reads as a number.
pub open spec fn is_first_row(rows: Seq<ClientRow>, id: Seq<char>, i: int) -> bool {
    &&& 0 <= i < rows.len()
    &&& is_row_of(rows[i], id)
    &&& forall|j: int| 0 <= j < i ==> !is_row_of(#[trigger] rows[j], id)
}

/// Whether some rows grant a guild to a client.
pub open spec fn granted(rows: Seq<ClientRow>, id: Seq<char>, guild: u64) -> bool {
    exists|i: int| 0 <= i < rows.len() && #[trigger] grants(rows[i], id, guild)
}

/// Whether the clients are those of the rows: each with the secret of its first
/// row and the guilds of all its rows. Rows whose guild id does not read as a
/// number do not count.
pub open spec fn is_grouping(clients: Map<Seq<char>, ClientConfig>, rows: Seq<ClientRow>) -> bool {
    &&& forall|i: int|
        0 <= i < rows.len() && number_of((#[trigger] rows[i]).guild_id@) is Some
            ==> clients.contains_key(rows[i].client_id@)
    &&& forall|id: Seq<char>| #[trigger]
        clients.contains_key(id) ==> exists|i: int| #[trigger]
            is_first_row(rows, id, i) && clients[id].secret@ == rows[i].secret@
    &&& forall|id: Seq<char>, guild: u64|
        clients.contains_key(id) ==> (#[trigger] clients[id].guilds@.contains(guild) <==> granted(
            rows,
            id,
            guild,
        ))
}

/// The clients of the rows: each with the secret of its first row and the guilds of
/// all its rows.
pub open spec fn grouped(rows: Seq<ClientRow>) -> Map<Seq<char>, ClientView> {
    Map::new(
        |id: Seq<char>| exists|i: int| #[trigger] is_first_row(rows, id, i),
        |id: Seq<char>|
            ClientView {
                secret: rows[choose|i: int| #[trigger] is_first_row(rows, id, i)].secret@,
                guilds: Set::new(|guild: u64| granted(rows, id, guild)),
            },
    )
}

/// Clients that are those of the rows are what the rows say of them.
proof fn lemma_grouped(clients: Map<Seq<char>, ClientConfig>, rows: Seq<ClientRow>)
    requires
        is_grouping(clients, rows),
    ensures
        clients_view(clients) == grouped(rows),
{
    let views = clients_view(clients);
    let all = grouped(rows);
    assert forall|id: Seq<char>| views.contains_key(id) == all.contains_key(id) by {
        if all.contains_key(id) {
            let i = choose|i: int| #[trigger] is_first_row(rows, id, i);
            assert(clients.contains_key(rows[i].client_id@));
        }
    }
    assert forall|id: Seq<char>| views.contains_key(id) implies views[id] == all[id] by {
        assert(clients.contains_key(id));
        let i = choose|i: int| #[trigger]
            is_first_row(rows, id, i) && clients[id].secret@ == rows[i].secret@;
        let k = choose|k: int| #[trigger] is_first_row(rows, id, k);
        assert(is_first_row(rows, id, i) && is_first_row(rows, id, k));
        assert(is_row_of(rows[i], id) && is_row_of(rows[k], id));
        assert(i == k);
        assert(views[id].guilds =~= all[id].guilds);
    }
    assert(views =~= all);
}

/// The rows up to one more hold its grant as well.
proof fn lemma_granted_push(rows: Seq<ClientRow>, n: int, id: Seq<char>, guild: u64)
    requires
        0 <= n < rows.len(),
    ensures
        granted(rows.take(n + 1), id, guild) == (granted(rows.take(n), id, guild) || grants(
            rows[n],
            id,
            guild,
        )),
{
    let before = rows.take(n);
    let after = rows.take(n + 1);
    assert(after =~= before.push(rows[n]));
    if granted(before, id, guild) {
        let i = choose|i: int| 0 <= i < before.len() && #[trigger] grants(before[i], id, guild);
        assert(grants(after[i], id, guild));
    }
    if grants(rows[n], id, guild) {
        assert(grants(after[n], id, guild));
    }
    if granted(after, id, guild) && !grants(rows[n], id, guild) {
        let i = choose|i: int| 0 <= i < after.len() && #[trigger] grants(after[i], id, guild);
        assert(grants(before[i], id, guild));
    }
}

/// The clients of the rows of the table.
pub fn group_clients(rows: &Vec<ClientRow>) -> (r: StringMap<ClientConfig>)
    ensures
        is_grouping(r@, rows@),
{
    let mut clients: StringMap<ClientConfig> = StringMap::new();
    let mut n: usize = 0;
    while n < rows.len()
        invariant
            n <= rows@.len(),
            is_grouping(clients@, rows@.take(n as int)),
        decreases rows.len() - n,
    {
        let row = &rows[n];
        let ghost before = clients@;
        let ghost seen = rows@.take(n as int);
        let ghost more = rows@.take(n + 1);
        assert(more =~= seen.push(*row));
        let ghost id = row.client_id@;
        proof {
            assert forall|k: Seq<char>, g: u64| #[trigger]
                granted(more, k, g) == (granted(seen, k, g) || grants(*row, k, g)) by {
                lemma_granted_push(rows@, n as int, k, g);
            }
        }
        if let Some(guild) = parse_number(row.guild_id.as_str()) {
            match clients.remove(row.client_id.as_str()) {
                Some(known) => {
                    let mut client = known;
                    client.guilds.insert(guild);
                    clients.insert(row.client_id.clone(), client);
                    proof {
                        assert(before.contains_key(id));
                    }
                },
                None => {
                    let mut guilds: HashSet<u64> = HashSet::new();
                    guilds.insert(guild);
                    clients.insert(
                        row.client_id.clone(),
                        ClientConfig { secret: row.secret.clone(), guilds },
                    );
                    proof {
                        assert forall|i: int| 0 <= i < seen.len() implies !is_row_of(
                            #[trigger] seen[i],
                            id,
                        ) by {}
                        assert(is_first_row(more, id, n as int)) by {
                            assert forall|j: int| 0 <= j < n implies !is_row_of(
                                #[trigger] more[j],
                                id,
                            ) by {
                                assert(more[j] == seen[j]);
                            }
                        }
                        assert forall|g: u64| !granted(seen, id, g) by {
                            if granted(seen, id, g) {
                                let i = choose|i: int|
                                    0 <= i < seen.len() && #[trigger] grants(seen[i], id, g);
                                assert(is_row_of(seen[i], id));
                            }
                        }
                    }
                },
            }
        }
        proof {
            assert forall|i: int|
                0 <= i < more.len() && number_of((#[trigger] more[i]).guild_id@)
                    is Some implies clients@.contains_key(more[i].client_id@) by {
                if i < n {
                    assert(more[i] == seen[i]);
                }
            }
            assert forall|k: Seq<char>| #[trigger]
                clients@.contains_key(k) implies exists|i: int| #[trigger]
                is_first_row(more, k, i) && clients@[k].secret@ == more[i].secret@ by {
                if before.contains_key(k) {
                    let i = choose|i: int| #[trigger]
                        is_first_row(seen, k, i) && before[k].secret@ == seen[i].secret@;
                    assert(more[i] == seen[i]);
                    assert forall|j: int| 0 <= j < i implies !is_row_of(#[trigger] more[j], k) by {
                        assert(more[j] == seen[j]);
                    }
                    assert(is_first_row(more, k, i));
                } else {
                    assert(k == id);
                    assert(is_first_row(more, k, n as int));
                }
            }
        }
        n += 1;
    }
    assert(rows@.take(rows@.len() as int) =~= rows@);
    clients
}

// --- The address of the database ---

/// The address with the TLS modes `verify-full` and `verify-ca` replaced by
/// `require`.
pub open spec fn normalized_url(url: Seq<char>) -> Seq<char> {
    replaced_all(
        replaced_all(url, "sslmode=verify-full"@, "sslmode=require"@),
        "sslmode=verify-ca"@,
        "sslmode=require"@,
    )
}

/// Makes an address fit for a database client that knows the TLS modes `disable`,
/// `prefer` and `require` only: `verify-full` and `verify-ca` become `require`.
pub fn normalize_database_url(url: &str) -> (r: String)
    ensures
        r@ == normalized_url(url@),
{
    proof {
        reveal_strlit("sslmode=verify-full");
        reveal_strlit("sslmode=verify-ca");
    }
    let url = replace_all(url, "sslmode=verify-full", "sslmode=require");
    replace_all(url.as_str(), "sslmode=verify-ca", "sslmode=require")
}

/// What comes in does not meet with what goes out.
proof fn lemma_modes_keep_apart()
    ensures
        keeps_apart("sslmode=verify-full"@, "sslmode=require"@),
        keeps_apart("sslmode=verify-ca"@, "sslmode=require"@),
        "sslmode=verify-full"@.len() > 0,
        "sslmode=verify-ca"@.len() > 0,
{
    reveal_strlit("sslmode=verify-full");
    reveal_strlit("sslmode=verify-ca");
    reveal_strlit("sslmode=require");
    let to = "sslmode=require"@;
    let full = "sslmode=verify-full"@;
    let ca = "sslmode=verify-ca"@;
    assert forall|k: int| 0 <= k < to.len() implies clash(full, #[trigger] to.skip(k)) && clash(
        ca,
        to.skip(k),
    ) by {
        let i: int = if k == 0 {
            8
        } else if k == 1 {
            1
        } else {
            0
        };
        assert(full[i] != to.skip(k)[i]);
        assert(ca[i] != to.skip(k)[i]);
    }
    assert forall|j: int| 1 <= j < full.len() implies clash(#[trigger] full.skip(j), to) by {
        let i: int = if j == 1 {
            1
        } else {
            0
        };
        assert(full.skip(j)[i] != to[i]);
    }
    assert forall|j: int| 1 <= j < ca.len() implies clash(#[trigger] ca.skip(j), to) by {
        let i: int = if j == 1 {
            1
        } else {
            0
        };
        assert(ca.skip(j)[i] != to[i]);
    }
}

/// A normalized address asks for neither of the modes that the database client
/// does not know.
pub proof fn law_normalized_url_is_known(url: Seq<char>)
    ensures
        !occurs(normalized_url(url), "sslmode=verify-full"@),
        !occurs(normalized_url(url), "sslmode=verify-ca"@),
{
    let full = "sslmode=verify-full"@;
    let ca = "sslmode=verify-ca"@;
    let to = "sslmode=require"@;
    lemma_modes_keep_apart();
    let once = replaced_all(url, full, to);
    law_replaced_text_is_free_of(url, full, to, full);
    law_replaced_text_is_free_of(once, ca, to, full);
    law_replaced_text_is_free_of(once, ca, to, ca);
}

/// An address that asks for neither of these modes stays as it is, and so does a
/// normalized one.
pub proof fn law_normalizing_is_idempotent(url: Seq<char>)
    ensures
        !occurs(url, "sslmode=verify-full"@) && !occurs(url, "sslmode=verify-ca"@)
            ==> normalized_url(url) == url,
        normalized_url(normalized_url(url)) == normalized_url(url),
{
    let full = "sslmode=verify-full"@;
    let ca = "sslmode=verify-ca"@;
    let to = "sslmode=require"@;
    if !occurs(url, full) && !occurs(url, ca) {
        law_nothing_to_replace(url, full, to);
        law_nothing_to_replace(url, ca, to);
    }
    let done = normalized_url(url);
    law_normalized_url_is_known(url);
    law_nothing_to_replace(done, full, to);
    law_nothing_to_replace(done, ca, to);
}

// --- What holds of clients ---

/// A known client is found by its id and secret, joined by a colon, with the
/// guilds that it is authorized for. (An id with a colon in it cannot be told from
/// the secret.)
pub proof fn law_client_is_found_by_token(clients: Map<Seq<char>, ClientConfig>, id: Seq<char>)
    requires
        clients.contains_key(id),
        !id.contains(':'),
    ensures
        client_of(clients, id.push(':') + clients[id].secret@) == Some((id, clients[id].guilds@)),
{
    law_split_undoes_join(id, ':', clients[id].secret@);
}

/// Nobody is found by another secret than the client's own, nor by a token without
/// a colon.
pub proof fn law_wrong_token_finds_nobody(
    clients: Map<Seq<char>, ClientConfig>,
    id: Seq<char>,
    secret: Seq<char>,
    token: Seq<char>,
)
    requires
        !id.contains(':'),
        clients.contains_key(id) ==> clients[id].secret@ != secret,
        !token.contains(':'),
    ensures
        client_of(clients, id.push(':') + secret) is None,
        client_of(clients, token) is None,
{
    law_split_undoes_join(id, ':', secret);
    token.index_of_first_ensures(':');
}

/// Stale data let no client in, whatever its token.
pub proof fn law_stale_data_let_nobody_in(registry: ClientRegistry, token: Seq<char>, now: u64)
    requires
        registry.last_successful_poll != 0,
        now - registry.last_successful_poll > CLIENT_DATA_STALE_AFTER_SECS,
    ensures
        registry.holder(true, token, Some(now)) is None,
{
}

/// Data are trusted without a database, before the first successful poll, while
/// the clock cannot be read, and for 30 seconds after a poll.
pub proof fn law_fresh_data_are_trusted(
    registry: ClientRegistry,
    database_configured: bool,
    token: Seq<char>,
    now: Option<u64>,
)
    requires
        !database_configured || registry.last_successful_poll == 0 || now is None || now->Some_0
            - registry.last_successful_poll <= CLIENT_DATA_STALE_AFTER_SECS,
    ensures
        registry.holder(database_configured, token, now) == client_of(registry.clients@, token),
{
}

/// The rows determine who the clients are, and the secret and the guilds of each.
pub proof fn law_grouping_is_unique(
    rows: Seq<ClientRow>,
    a: Map<Seq<char>, ClientConfig>,
    b: Map<Seq<char>, ClientConfig>,
)
    requires
        is_grouping(a, rows),
        is_grouping(b, rows),
    ensures
        a.dom() == b.dom(),
        forall|id: Seq<char>| #[trigger]
            a.contains_key(id) ==> a[id].secret@ == b[id].secret@ && a[id].guilds@
                == b[id].guilds@,
{
    assert forall|id: Seq<char>| a.contains_key(id) == b.contains_key(id) by {
        if a.contains_key(id) {
            let i = choose|i: int| #[trigger]
                is_first_row(rows, id, i) && a[id].secret@ == rows[i].secret@;
            assert(rows[i].client_id@ == id);
        }
        if b.contains_key(id) {
            let i = choose|i: int| #[trigger]
                is_first_row(rows, id, i) && b[id].secret@ == rows[i].secret@;
            assert(rows[i].client_id@ == id);
        }
    }
    assert(a.dom() =~= b.dom());
    assert forall|id: Seq<char>| #[trigger] a.contains_key(id) implies a[id].secret@
        == b[id].secret@ && a[id].guilds@ == b[id].guilds@ by {
        assert(b.contains_key(id));
        let i = choose|i: int| #[trigger]
            is_first_row(rows, id, i) && a[id].secret@ == rows[i].secret@;
        let j = choose|j: int| #[trigger]
            is_first_row(rows, id, j) && b[id].secret@ == rows[j].secret@;
        assert(is_row_of(rows[i], id) && is_row_of(rows[j], id));
        assert forall|g: u64| a[id].guilds@.contains(g) == b[id].guilds@.contains(g) by {}
        assert(a[id].guilds@ =~= b[id].guilds@);
    }
}

/// Every row with a number for its guild lets its client in for that guild, by the
/// secret of the first such row.
pub proof fn law_row_lets_client_in(
    clients: Map<Seq<char>, ClientConfig>,
    rows: Seq<ClientRow>,
    first: int,
    i: int,
    guild: u64,
)
    requires
        is_grouping(clients, rows),
        0 <= i < rows.len(),
        number_of(rows[i].guild_id@) == Some(guild),
        is_first_row(rows, rows[i].client_id@, first),
        !rows[i].client_id@.contains(':'),
    ensures
        client_of(clients, rows[i].client_id@.push(':') + rows[first].secret@) matches Some(
            (id, guilds),
        ) && id == rows[i].client_id@ && guilds.contains(guild),
{
    let id = rows[i].client_id@;
    assert(clients.contains_key(id));
    let k = choose|k: int| #[trigger]
        is_first_row(rows, id, k) && clients[id].secret@ == rows[k].secret@;
    assert(is_row_of(rows[k], id) && is_row_of(rows[first], id));
    assert(k == first);
    law_client_is_found_by_token(clients, id);
    assert(grants(rows[i], id, guild));
    assert(granted(rows, id, guild));
}

// --- What holds of the loop of polls ---

/// What comes of polls that all succeed.
pub open spec fn successful<E>(polls: Seq<(Seq<ClientRow>, Option<u64>)>) -> Seq<PollView<E>> {
    polls.map_values(|poll: (Seq<ClientRow>, Option<u64>)| PollView::Rows(poll.0, poll.1))
}

/// Whether the registry is what the last of some successful polls made of it: its
/// clients are exactly those of that poll, and its time is noted. Without a poll it
/// is as it was.
pub open spec fn is_as_last_polled(
    registry: RegistryView,
    before: RegistryView,
    polls: Seq<(Seq<ClientRow>, Option<u64>)>,
) -> bool {
    if polls.len() == 0 {
        registry == before
    } else {
        &&& registry.clients == grouped(polls.last().0)
        &&& polls.last().1 matches Some(secs) ==> registry.last_successful_poll == secs
    }
}

/// As long as polls succeed the loop goes on, and the registry is what the last of
/// them made of it, whatever the clients were before.
pub proof fn law_successful_polls_go_on<E>(
    registry: RegistryView,
    polls: Seq<(Seq<ClientRow>, Option<u64>)>,
)
    ensures
        poll_loop(registry, successful::<E>(polls)).1 is None,
        is_as_last_polled(poll_loop(registry, successful::<E>(polls)).0, registry, polls),
    decreases polls.len(),
{
    if polls.len() > 0 {
        let outcomes = successful::<E>(polls);
        let next = registry.polled(polls[0].0, polls[0].1);
        assert(outcomes.skip(1) =~= successful::<E>(polls.skip(1)));
        law_successful_polls_go_on::<E>(next, polls.skip(1));
        if polls.len() > 1 {
            assert(polls.skip(1).last() == polls.last());
        }
    }
}

/// The loop ends with the error of the first poll that fails. That poll changes
/// nothing: the registry is what the last of the polls before it made of it.
pub proof fn law_failing_poll_ends_the_loop<E>(
    registry: RegistryView,
    polls: Seq<(Seq<ClientRow>, Option<u64>)>,
    error: E,
    later: Seq<PollView<E>>,
)
    ensures
        ({
            let outcomes = successful::<E>(polls).push(PollView::Failed(error)) + later;
            let end = poll_loop(registry, outcomes);
            &&& end.1 == Some(error)
            &&& end.0 == poll_loop(registry, successful::<E>(polls)).0
            &&& is_as_last_polled(end.0, registry, polls)
        }),
    decreases polls.len(),
{
    let outcomes = successful::<E>(polls).push(PollView::Failed(error)) + later;
    law_successful_polls_go_on::<E>(registry, polls);
    if polls.len() == 0 {
        assert(outcomes[0] == PollView::Failed(error));
    } else {
        let next = registry.polled(polls[0].0, polls[0].1);
        let rest = polls.skip(1);
        assert(outcomes[0] == PollView::<E>::Rows(polls[0].0, polls[0].1));
        assert(outcomes.skip(1) =~= successful::<E>(rest).push(PollView::Failed(error)) + later);
        assert(successful::<E>(polls).skip(1) =~= successful::<E>(rest));
        law_failing_poll_ends_the_loop(next, rest, error, later);
    }
}

/// The loop goes step by step: a poll that succeeds is taken on what the polls before
/// it made of the registry, and one that fails leaves that as it is and ends the loop.
pub proof fn law_poll_loop_goes_step_by_step<E>(
    registry: RegistryView,
    polls: Seq<PollView<E>>,
    next: PollView<E>,
)
    requires
        poll_loop(registry, polls).1 is None,
    ensures
        poll_loop(registry, polls.push(next)) == match next {
            PollView::Rows(rows, now) => (
                poll_loop(registry, polls).0.polled(rows, now),
                None,
            ),
            PollView::Failed(error) => (poll_loop(registry, polls).0, Some(error)),
        },
    decreases polls.len(),
{
    let more = polls.push(next);
    if polls.len() == 0 {
        assert(more[0] == next);
        assert(more.skip(1) =~= Seq::<PollView<E>>::empty());
        reveal_with_fuel(poll_loop, 2);
    } else {
        assert(more[0] == polls[0]);
        if let PollView::Rows(rows, now) = polls[0] {
            assert(more.skip(1) =~= polls.skip(1).push(next));
            law_poll_loop_goes_step_by_step(registry.polled(rows, now), polls.skip(1), next);
        }
    }
}

// --- Who is let in, and by what data ---

/// Data are stale exactly where a database is configured, a poll succeeded at some
/// time, the clock can be read, and more than 30 seconds have passed since.
pub proof fn law_stale_after_thirty_seconds(
    database_configured: bool,
    last_success: u64,
    now: Option<u64>,
)
    ensures
        is_stale(database_configured, last_success, now) <==> database_configured && last_success
            > 0 && (now matches Some(secs) && secs > last_success + 30),
{
}

/// A token is a client's exactly where it is the id of the client, without a colon in
/// it, a colon, and the client's secret. The guilds are then the client's.
pub proof fn law_token_is_id_and_secret(
    clients: Map<Seq<char>, ClientConfig>,
    token: Seq<char>,
    id: Seq<char>,
    guilds: Set<u64>,
)
    ensures
        client_of(clients, token) == Some((id, guilds)) <==> clients.contains_key(id)
            && !id.contains(':') && token == id.push(':') + clients[id].secret@ && guilds
            == clients[id].guilds@,
{
    law_split_is_at_the_first(token, ':');
    if clients.contains_key(id) && !id.contains(':') && token == id.push(':')
        + clients[id].secret@ {
        law_split_undoes_join(id, ':', clients[id].secret@);
    }
}

/// A token is somebody's exactly where its client is known and the data are not stale.
pub proof fn law_holder_is_a_known_client(
    registry: ClientRegistry,
    database_configured: bool,
    token: Seq<char>,
    now: Option<u64>,
    id: Seq<char>,
    guilds: Set<u64>,
)
    ensures
        registry.holder(database_configured, token, now) == Some((id, guilds))
            <==> registry.clients@.contains_key(id) && !id.contains(':') && token == id.push(':')
            + registry.clients@[id].secret@ && guilds == registry.clients@[id].guilds@ && !(
        database_configured && registry.last_successful_poll > 0 && (now matches Some(secs) && secs
            > registry.last_successful_poll + 30)),
{
    law_token_is_id_and_secret(registry.clients@, token, id, guilds);
}

/// What an authentication gives are the id and the guilds of the client.
pub proof fn law_client_is_told(client: (String, HashSet<u64>))
    ensures
        client_view(None) is None,
        client_view(Some(client)) == Some((client.0@, client.1@)),
{
}

/// What the rows of the table say: a client is one that some row with a number for its
/// guild is about. Its secret is that of the first such row, and its guilds are the
/// numbers of all of them.
pub proof fn law_rows_make_clients(
    clients: Map<Seq<char>, ClientConfig>,
    rows: Seq<ClientRow>,
    id: Seq<char>,
    guild: u64,
    first: int,
)
    requires
        is_grouping(clients, rows),
    ensures
        clients.contains_key(id) <==> exists|i: int|
            0 <= i < rows.len() && (#[trigger] rows[i]).client_id@ == id && number_of(
                rows[i].guild_id@,
            ) is Some,
        clients.contains_key(id) && 0 <= first < rows.len() && rows[first].client_id@ == id
            && number_of(rows[first].guild_id@) is Some && (forall|j: int|
            0 <= j < first && (#[trigger] rows[j]).client_id@ == id ==> number_of(rows[j].guild_id@)
                is None) ==> clients[id].secret@ == rows[first].secret@,
        clients.contains_key(id) ==> (clients[id].guilds@.contains(guild) <==> exists|i: int|
            0 <= i < rows.len() && (#[trigger] rows[i]).client_id@ == id && number_of(
                rows[i].guild_id@,
            ) == Some(guild)),
{
    if clients.contains_key(id) {
        let k = choose|k: int| #[trigger]
            is_first_row(rows, id, k) && clients[id].secret@ == rows[k].secret@;
        assert(rows[k].client_id@ == id && number_of(rows[k].guild_id@) is Some);
        if 0 <= first < rows.len() && is_row_of(rows[first], id) && (forall|j: int|
            0 <= j < first && (#[trigger] rows[j]).client_id@ == id ==> number_of(rows[j].guild_id@)
                is None) {
            assert(!(k < first));
            if first < k {
                assert(!is_row_of(rows[first], id));
            }
        }
        if clients[id].guilds@.contains(guild) {
            let i = choose|i: int| 0 <= i < rows.len() && #[trigger] grants(rows[i], id, guild);
            assert(rows[i].client_id@ == id);
        }
        if exists|i: int|
            0 <= i < rows.len() && (#[trigger] rows[i]).client_id@ == id && number_of(
                rows[i].guild_id@,
            ) == Some(guild) {
            let i = choose|i: int|
                0 <= i < rows.len() && (#[trigger] rows[i]).client_id@ == id && number_of(
                    rows[i].guild_id@,
                ) == Some(guild);
            assert(grants(rows[i], id, guild));
        }
    }
}

/// After a poll that succeeded the registry has the clients of the rows and no others,
/// and the time of the poll, if the clock could be read.
pub proof fn law_poll_replaces_clients(
    registry: RegistryView,
    rows: Seq<ClientRow>,
    now: Option<u64>,
    id: Seq<char>,
)
    ensures
        ({
            let after = registry.polled(rows, now);
            &&& after.last_successful_poll == match now {
                Some(secs) => secs,
                None => registry.last_successful_poll,
            }
            &&& after.clients.contains_key(id) <==> exists|i: int|
                0 <= i < rows.len() && (#[trigger] rows[i]).client_id@ == id && number_of(
                    rows[i].guild_id@,
                ) is Some
            &&& after.clients.contains_key(id) ==> exists|i: int|
                0 <= i < rows.len() && (#[trigger] rows[i]).client_id@ == id && number_of(
                    rows[i].guild_id@,
                ) is Some && after.clients[id].secret == rows[i].secret@ && forall|j: int|
                    0 <= j < i && (#[trigger] rows[j]).client_id@ == id ==> number_of(
                        rows[j].guild_id@,
                    ) is None
            &&& after.clients.contains_key(id) ==> forall|guild: u64|
                #![trigger after.clients[id].guilds.contains(guild)]
                after.clients[id].guilds.contains(guild) <==> exists|i: int|
                    0 <= i < rows.len() && (#[trigger] rows[i]).client_id@ == id && number_of(
                        rows[i].guild_id@,
                    ) == Some(guild)
        }),
{
    let after = registry.polled(rows, now);
    if exists|i: int| is_first_row(rows, id, i) {
        let i = choose|i: int| #[trigger] is_first_row(rows, id, i);
        assert(is_row_of(rows[i], id));
        assert forall|j: int| 0 <= j < i && (#[trigger] rows[j]).client_id@ == id implies number_of(
            rows[j].guild_id@,
        ) is None by {
            assert(!is_row_of(rows[j], id));
        }
        assert forall|guild: u64|
            #![trigger after.clients[id].guilds.contains(guild)]
            after.clients[id].guilds.contains(guild) <==> exists|i: int|
                0 <= i < rows.len() && (#[trigger] rows[i]).client_id@ == id && number_of(
                    rows[i].guild_id@,
                ) == Some(guild) by {
            if granted(rows, id, guild) {
                let k = choose|k: int|
                    0 <= k < rows.len() && #[trigger] grants(rows[k], id, guild);
                assert(rows[k].client_id@ == id);
            }
            if exists|i: int|
                0 <= i < rows.len() && (#[trigger] rows[i]).client_id@ == id && number_of(
                    rows[i].guild_id@,
                ) == Some(guild) {
                let k = choose|k: int|
                    0 <= k < rows.len() && (#[trigger] rows[k]).client_id@ == id && number_of(
                        rows[k].guild_id@,
                    ) == Some(guild);
                assert(grants(rows[k], id, guild));
            }
        }
    }
    if exists|i: int|
        0 <= i < rows.len() && (#[trigger] rows[i]).client_id@ == id && number_of(
            rows[i].guild_id@,
        ) is Some {
        let i = choose|i: int|
            0 <= i < rows.len() && (#[trigger] rows[i]).client_id@ == id && number_of(
                rows[i].guild_id@,
            ) is Some;
        lemma_first_row(rows, id, i);
    }
}

/// Where some row is about a client, there is a first.
proof fn lemma_first_row(rows: Seq<ClientRow>, id: Seq<char>, i: int)
    requires
        0 <= i < rows.len(),
        is_row_of(rows[i], id),
    ensures
        exists|k: int| #[trigger] is_first_row(rows, id, k),
    decreases i,
{
    if exists|j: int| 0 <= j < i && is_row_of(#[trigger] rows[j], id) {
        let j = choose|j: int| 0 <= j < i && is_row_of(#[trigger] rows[j], id);
        lemma_first_row(rows, id, j);
    } else {
        assert(is_first_row(rows, id, i));
    }
}

/// What the registry holds is what is known of each client, and the time.
pub proof fn law_registry_is_told(registry: ClientRegistry, id: Seq<char>)
    ensures
        registry@.last_successful_poll == registry.last_successful_poll,
        registry@.clients.contains_key(id) == registry.clients@.contains_key(id),
        registry.clients@.contains_key(id) ==> registry@.clients[id].secret
            == registry.clients@[id].secret@ && registry@.clients[id].guilds
            == registry.clients@[id].guilds@,
{
}

/// An address that asks for `verify-full`, or for `verify-ca`, in one place asks for
/// `require` in that place when it is normalized, and is the same else.
pub proof fn law_mode_becomes_require(before: Seq<char>, after: Seq<char>)
    requires
        !before.contains('s'),
        !after.contains('s'),
    ensures
        normalized_url(before + "sslmode=verify-full"@ + after) == before + "sslmode=require"@
            + after,
        normalized_url(before + "sslmode=verify-ca"@ + after) == before + "sslmode=require"@
            + after,
{
    let full = "sslmode=verify-full"@;
    let ca = "sslmode=verify-ca"@;
    let to = "sslmode=require"@;
    reveal_strlit("sslmode=verify-full");
    reveal_strlit("sslmode=verify-ca");
    reveal_strlit("sslmode=require");
    lemma_mode_replaced(before, full, after, full, to);
    lemma_mode_replaced(before, ca, after, ca, to);
    lemma_mode_stays(before, to, after, ca);
    lemma_mode_stays(before, ca, after, full);
    law_nothing_to_replace(before + to + after, ca, to);
    law_nothing_to_replace(before + ca + after, full, to);
}

/// A mode between texts without the letter that it begins with is replaced.
proof fn lemma_mode_replaced(
    before: Seq<char>,
    mode: Seq<char>,
    after: Seq<char>,
    from: Seq<char>,
    to: Seq<char>,
)
    requires
        mode == from,
        from.len() > 0,
        from[0] == 's',
        !before.contains('s'),
        !after.contains('s'),
    ensures
        replaced_all(before + mode + after, from, to) == before + to + after,
    decreases before.len(),
{
    if before.len() == 0 {
        assert(before + mode + after =~= from + after);
        law_replace_at_start(after, from, to);
        assert(!occurs(after, from)) by {
            if occurs(after, from) {
                let k = choose|k: int| #[trigger] occurs_at(after, from, k);
                assert(after.skip(k).subrange(0, from.len() as int)[0] == from[0]);
                assert(after[k] == 's');
            }
        }
        law_nothing_to_replace(after, from, to);
        assert(to + after =~= before + to + after);
    } else {
        let c = before[0];
        let rest = before.skip(1);
        let tail = rest + mode + after;
        assert(before.contains(c));
        assert(before + mode + after =~= seq![c] + tail);
        assert(!from.is_prefix_of(seq![c] + tail)) by {
            if from.is_prefix_of(seq![c] + tail) {
                assert((seq![c] + tail).subrange(0, from.len() as int)[0] == from[0]);
            }
        }
        assert(!rest.contains('s')) by {
            if rest.contains('s') {
                let i = choose|i: int| 0 <= i < rest.len() && rest[i] == 's';
                assert(before[i + 1] == 's');
            }
        }
        law_replace_keeps_others(c, tail, from, to);
        lemma_mode_replaced(rest, mode, after, from, to);
        assert(seq![c] + (rest + to + after) =~= before + to + after);
    }
}

/// A mode between texts without the letter that it begins with is no other mode.
proof fn lemma_mode_stays(
    before: Seq<char>,
    mode: Seq<char>,
    after: Seq<char>,
    from: Seq<char>,
)
    requires
        from == "sslmode=verify-full"@ && mode == "sslmode=verify-ca"@ || from
            == "sslmode=verify-ca"@ && mode == "sslmode=require"@,
        !before.contains('s'),
        !after.contains('s'),
    ensures
        !occurs(before + mode + after, from),
{
    reveal_strlit("sslmode=verify-full");
    reveal_strlit("sslmode=verify-ca");
    reveal_strlit("sslmode=require");
    let s = before + mode + after;
    if occurs(s, from) {
        let k = choose|k: int| #[trigger] occurs_at(s, from, k);
        let part = s.skip(k).subrange(0, from.len() as int);
        assert(part =~= from);
        assert forall|i: int| 0 <= i < from.len() implies s[k + i] == from[i] by {
            assert(part[i] == from[i]);
        }
        assert(s[k] == from[0] && s[k + 1] == from[1] && s[k + 8] == from[8] && s[k + 15]
            == from[15]);
        if k < before.len() {
            assert(before.contains(before[k]));
        } else if k >= before.len() + mode.len() {
            assert(after.contains(after[k - before.len() - mode.len()]));
        } else {
            assert(mode[k - before.len()] == 's');
            assert(k == before.len() || k == before.len() + 1);
        }
    }
}

/// A poll follows a second after the last, and a connection five seconds after one that
/// failed.
pub proof fn law_pauses()
    ensures
        POLL_PAUSE_SECS == 1,
        RECONNECT_PAUSE_SECS == 5,
        CLIENT_DATA_STALE_AFTER_SECS == 30,
{
}

} // verus!
