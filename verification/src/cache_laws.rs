//! What holds of the guild cache, whatever events come.
use crate::cache::{authorized_set, is_ready_payload, message_tree, Payload};
use crate::cache_model::{
    enumerates, event_named, guild_payload, id_number, names, ready_entry, visible, CacheView,
    EntryView, Event, PendingView,
};
use crate::codec::{is_plain, law_plain_tree_reads_back, parsed_json, printed_json};
use crate::json::{Json, JsonObject, JsonTree};
use crate::text::{decimal, law_decimal_injective};
use std::collections::HashSet;
use vstd::prelude::*;

verus! {

/// The guild that an event is about.
pub open spec fn subject(event: Event, message: Option<JsonTree>, guild: Option<u64>) -> Option<
    u64,
> {
    match (event, message) {
        (Event::GuildCreate, Some(message)) => id_number(message.at("d"@)),
        (Event::GuildCreate, None) => None,
        _ => guild,
    }
}

/// An event of any other name changes nothing.
pub proof fn law_unknown_event_changes_nothing(
    cache: CacheView,
    name: Seq<char>,
    message: Option<JsonTree>,
    guild: Option<u64>,
)
    requires
        event_named(name) is None,
    ensures
        cache.after_named(name, message, guild) == cache,
{
}

/// An event that is about no guild changes nothing.
pub proof fn law_event_without_guild_changes_nothing(
    cache: CacheView,
    event: Event,
    message: Option<JsonTree>,
    guild: Option<u64>,
)
    requires
        subject(event, message, guild) is None,
    ensures
        cache.after(event, message, guild) == cache,
{
}

/// A payload that does not read changes nothing, unless it is to delete a guild.
pub proof fn law_unreadable_payload_changes_nothing(
    cache: CacheView,
    event: Event,
    guild: Option<u64>,
)
    requires
        event != Event::GuildDelete,
    ensures
        cache.after(event, None, guild) == cache,
{
}

/// An event leaves every guild that it is not about as it is.
pub proof fn law_other_guilds_stay(
    cache: CacheView,
    event: Event,
    message: Option<JsonTree>,
    guild: Option<u64>,
    other: u64,
)
    requires
        subject(event, message, guild) != Some(other),
    ensures
        cache.after(event, message, guild).guilds.get(other) == cache.guilds.get(other),
{
}

/// An event makes channels point to no other guild than the one it is about, and
/// makes them point nowhere only where a guild or a channel is deleted.
pub proof fn law_channels_point_to_subject(
    cache: CacheView,
    event: Event,
    message: Option<JsonTree>,
    guild: Option<u64>,
    channel: u64,
)
    ensures
        ({
            let before = cache.channels.get(channel);
            let after = cache.after(event, message, guild).channels.get(channel);
            after != before ==> if after is None {
                event == Event::GuildDelete || event == Event::ChannelDelete
            } else {
                after == subject(event, message, guild)
            }
        }),
{
}

/// A created guild is known as it was described, and its channels and threads
/// belong to it.
pub proof fn law_created_guild_is_known(
    cache: CacheView,
    message: JsonTree,
    guild: Option<u64>,
    created: u64,
)
    requires
        id_number(message.at("d"@)) == Some(created),
    ensures
        cache.after(Event::GuildCreate, Some(message), guild).guilds.get(created) == Some(
            EntryView {
                tree: message.at("d"@),
                unavailable: message.at("d"@).at("unavailable"@).is_true(),
            },
        ),
        forall|channel: u64|
            message.at("d"@).at("channels"@) is Array && #[trigger] names(
                message.at("d"@).at("channels"@)->Array_0,
                channel,
            ) ==> cache.after(Event::GuildCreate, Some(message), guild).channels.get(channel)
                == Some(created),
        forall|channel: u64|
            message.at("d"@).at("threads"@) is Array && #[trigger] names(
                message.at("d"@).at("threads"@)->Array_0,
                channel,
            ) ==> cache.after(Event::GuildCreate, Some(message), guild).channels.get(channel)
                == Some(created),
{
}

/// What is stored of a guild reads as the guild, where it is plain.
pub proof fn law_stored_guild_reads_back(cache: CacheView, guild: u64)
    requires
        cache.sound(),
        cache.guilds.contains_key(guild),
        is_plain(cache.guilds[guild].tree),
    ensures
        cache.guild_tree(guild) == Some(cache.guilds[guild].tree),
{
    let tree = cache.guilds[guild].tree;
    law_plain_tree_reads_back(printed_json(tree), tree);
}

/// A change of a known guild takes effect on what is stored of it, where that is
/// plain. Nothing else changes.
pub proof fn law_change_takes_effect(
    cache: CacheView,
    guild: u64,
    edit: spec_fn(JsonTree) -> JsonTree,
)
    requires
        cache.sound(),
        cache.guilds.contains_key(guild),
        is_plain(cache.guilds[guild].tree),
    ensures
        cache.edited(guild, edit) == (CacheView {
            guilds: cache.guilds.insert(
                guild,
                EntryView {
                    tree: edit(cache.guilds[guild].tree),
                    unavailable: cache.guilds[guild].unavailable,
                },
            ),
            channels: cache.channels,
        }),
{
    law_stored_guild_reads_back(cache, guild);
}

/// An event about a guild that is not known changes at most what is known of
/// channels, unless it creates the guild.
pub proof fn law_unknown_guild_stays_unknown(
    cache: CacheView,
    event: Event,
    message: Option<JsonTree>,
    guild: u64,
)
    requires
        !cache.guilds.contains_key(guild),
        event != Event::GuildCreate,
    ensures
        cache.after(event, message, Some(guild)).guilds == cache.guilds,
{
    assert(cache.guilds.remove(guild) =~= cache.guilds);
}

/// A guild that is deleted for good is not known any more, and no channel belongs
/// to it. The channels of other guilds stay.
pub proof fn law_deleted_guild_is_gone(
    cache: CacheView,
    message: Option<JsonTree>,
    guild: u64,
)
    requires
        message matches Some(message) ==> !message.at("d"@).at("unavailable"@).is_true(),
    ensures
        !cache.after(Event::GuildDelete, message, Some(guild)).guilds.contains_key(guild),
        forall|channel: u64|
            #[trigger] cache.after(Event::GuildDelete, message, Some(guild)).channels.get(channel)
                == if cache.channels.get(channel) == Some(guild) {
                None
            } else {
                cache.channels.get(channel)
            },
{
}

/// A guild that goes out of reach stays known, with its channels, and is marked.
pub proof fn law_unavailable_guild_is_kept(cache: CacheView, message: JsonTree, guild: u64)
    requires
        message.at("d"@).at("unavailable"@).is_true(),
        cache.guilds.contains_key(guild),
    ensures
        ({
            let after = cache.after(Event::GuildDelete, Some(message), Some(guild));
            &&& after.channels == cache.channels
            &&& after.guilds.get(guild) == Some(
                EntryView { tree: cache.guilds[guild].tree, unavailable: true },
            )
        }),
{
}

/// A created channel, or thread, belongs to its guild.
pub proof fn law_created_channel_belongs_to_guild(
    cache: CacheView,
    event: Event,
    message: JsonTree,
    guild: u64,
    channel: u64,
)
    requires
        event == Event::ChannelCreate || event == Event::ThreadCreate,
        id_number(message.at("d"@)) == Some(channel),
    ensures
        cache.after(event, Some(message), Some(guild)).channels == cache.channels.insert(
            channel,
            guild,
        ),
{
}

/// A deleted channel, or thread, belongs to no guild.
pub proof fn law_deleted_channel_belongs_nowhere(
    cache: CacheView,
    message: JsonTree,
    guild: u64,
    channel: u64,
)
    requires
        id_number(message.at("d"@)) == Some(channel),
    ensures
        cache.after(Event::ChannelDelete, Some(message), Some(guild)).channels
            == cache.channels.remove(channel),
{
}

/// The threads that are listed anew belong to the guild.
pub proof fn law_listed_threads_belong_to_guild(
    cache: CacheView,
    message: JsonTree,
    guild: u64,
    channel: u64,
)
    requires
        message.at("d"@).at("threads"@) is Array,
        names(message.at("d"@).at("threads"@)->Array_0, channel),
    ensures
        cache.after(Event::ThreadListSync, Some(message), Some(guild)).channels.get(channel)
            == Some(guild),
{
}

/// Events about two guilds that do not touch channels can come in either order.
pub proof fn law_changes_of_two_guilds_commute(
    cache: CacheView,
    a: u64,
    edit_a: spec_fn(JsonTree) -> JsonTree,
    b: u64,
    edit_b: spec_fn(JsonTree) -> JsonTree,
)
    requires
        a != b,
    ensures
        cache.edited(a, edit_a).edited(b, edit_b) == cache.edited(b, edit_b).edited(a, edit_a),
{
    let ab = cache.edited(a, edit_a).edited(b, edit_b);
    let ba = cache.edited(b, edit_b).edited(a, edit_a);
    assert(cache.edited(a, edit_a).guild_tree(b) == cache.guild_tree(b));
    assert(cache.edited(b, edit_b).guild_tree(a) == cache.guild_tree(a));
    assert(ab.guilds =~= ba.guilds);
}

/// A client that is authorized for some guilds learns of no other, and of each of
/// them that is known exactly once.
pub proof fn law_client_sees_its_guilds_only(
    known: Set<u64>,
    authorized: Set<u64>,
    order: Seq<u64>,
    guild: u64,
)
    requires
        enumerates(order, visible(known, Some(authorized))),
    ensures
        order.contains(guild) <==> known.contains(guild) && authorized.contains(guild),
        forall|i: int, j: int|
            0 <= i < order.len() && 0 <= j < order.len() && i != j ==> order[i] != order[j],
{
    assert(order.contains(guild) <==> order.to_set().contains(guild));
}

/// A client without restriction learns of every known guild.
pub proof fn law_unrestricted_client_sees_all(known: Set<u64>, order: Seq<u64>, guild: u64)
    requires
        enumerates(order, visible(known, None)),
    ensures
        order.contains(guild) <==> known.contains(guild),
{
    assert(order.contains(guild) <==> order.to_set().contains(guild));
}

/// The READY payload lists as many guilds as payloads follow it, and the same ones.
pub proof fn law_ready_announces_what_follows(
    ready: Payload<JsonObject>,
    fields: Map<Seq<char>, JsonTree>,
    listed: Seq<u64>,
    ready_sequence: usize,
    cache: CacheView,
    order: Seq<u64>,
    guilds: Set<u64>,
)
    requires
        is_ready_payload(ready, fields, listed, ready_sequence),
        enumerates(listed, guilds),
        enumerates(order, guilds),
    ensures
        ready.d@["guilds"@] matches JsonTree::Array(entries) && entries.len() == cache.all_pending(
            order,
        ).len() && forall|guild: u64|
            order.contains(guild) <==> #[trigger] entries.contains(ready_entry(guild)),
{
    listed.unique_seq_to_set();
    order.unique_seq_to_set();
    let entries = listed.map_values(|g: u64| ready_entry(g));
    assert forall|guild: u64| order.contains(guild) <==> #[trigger] entries.contains(
        ready_entry(guild),
    ) by {
        assert(order.contains(guild) <==> order.to_set().contains(guild));
        assert(listed.contains(guild) <==> listed.to_set().contains(guild));
        if order.contains(guild) {
            let i = choose|i: int| 0 <= i < listed.len() && listed[i] == guild;
            assert(entries[i] == ready_entry(guild));
        }
        if entries.contains(ready_entry(guild)) {
            let i = choose|i: int| 0 <= i < entries.len() && entries[i] == ready_entry(guild);
            lemma_ready_entry_injective(listed[i], guild);
            assert(listed.contains(guild));
        }
    }
}

/// Two guilds with the same entry are the same guild.
proof fn lemma_ready_entry_injective(a: u64, b: u64)
    requires
        ready_entry(a) == ready_entry(b),
    ensures
        a == b,
{
    reveal_strlit("id");
    reveal_strlit("unavailable");
    assert("id"@.len() != "unavailable"@.len());
    assert(ready_entry(a).at("id"@) == JsonTree::Text(decimal(a as nat)));
    assert(ready_entry(b).at("id"@) == JsonTree::Text(decimal(b as nat)));
    law_decimal_injective(a, b);
}

/// What a client learns of a guild that is out of reach is its id alone.
pub proof fn law_unavailable_guild_is_not_shown(a: PendingView, b: PendingView, sequence: nat)
    requires
        a.guild == b.guild,
        a.unavailable,
        b.unavailable,
    ensures
        guild_payload(a, sequence) == guild_payload(b, sequence),
{
}

/// The first `n` payloads that a client takes.
pub open spec fn taken(pending: Seq<PendingView>, sequence: nat, n: nat) -> Seq<Seq<char>>
    decreases n,
{
    if n == 0 || pending.len() == 0 {
        Seq::empty()
    } else {
        seq![guild_payload(pending[0], sequence + 1)] + taken(
            pending.skip(1),
            sequence + 1,
            (n - 1) as nat,
        )
    }
}

/// However many payloads a client takes, they are numbered one after the other, in
/// the order in which they stand.
pub proof fn law_payloads_are_numbered_as_taken(
    pending: Seq<PendingView>,
    sequence: nat,
    n: nat,
)
    requires
        n <= pending.len(),
    ensures
        taken(pending, sequence, n).len() == n,
        forall|i: int|
            0 <= i < n ==> #[trigger] taken(pending, sequence, n)[i] == guild_payload(
                pending[i],
                (sequence + i + 1) as nat,
            ),
    decreases n,
{
    if n > 0 {
        let rest = pending.skip(1);
        let later = taken(rest, sequence + 1, (n - 1) as nat);
        law_payloads_are_numbered_as_taken(rest, sequence + 1, (n - 1) as nat);
        assert forall|i: int| 0 <= i < n implies #[trigger] taken(pending, sequence, n)[i]
            == guild_payload(pending[i], (sequence + i + 1) as nat) by {
            if i > 0 {
                assert(taken(pending, sequence, n)[i] == later[i - 1]);
                assert(rest[i - 1] == pending[i]);
            }
        }
    }
}

/// The READY payload has the members of the shard's READY payload but for the guilds,
/// which are listed in order, each by its id in digits and as unavailable and nothing
/// more.
pub proof fn law_ready_payload_lists_guilds(
    ready: Payload<JsonObject>,
    fields: Map<Seq<char>, JsonTree>,
    order: Seq<u64>,
    sequence: usize,
    key: Seq<char>,
    i: int,
)
    requires
        is_ready_payload(ready, fields, order, sequence),
        0 <= i < order.len(),
    ensures
        ready.op == 0,
        ready.t@ == "READY"@,
        ready.s == sequence,
        key != "guilds"@ ==> ready.d@.get(key) == fields.get(key),
        ready.d@.get("guilds"@) matches Some(JsonTree::Array(entries)) && entries.len()
            == order.len() && entries[i] == JsonTree::Object(
            map!["id"@ => JsonTree::Text(decimal(order[i] as nat)), "unavailable"@ => JsonTree::Bool(true)],
        ),
{
    assert(ready_entry(order[i])->Object_0 =~= map![
        "id"@ => JsonTree::Text(decimal(order[i] as nat)),
        "unavailable"@ => JsonTree::Bool(true)
    ]);
}

/// A READY payload without guilds has an empty list of them.
pub proof fn law_ready_payload_without_guilds(
    ready: Payload<JsonObject>,
    fields: Map<Seq<char>, JsonTree>,
    sequence: usize,
)
    requires
        is_ready_payload(ready, fields, Seq::empty(), sequence),
    ensures
        ready.op == 0,
        ready.t@ == "READY"@,
        ready.s == sequence,
        ready.d@ == fields.insert("guilds"@, JsonTree::Array(Seq::empty())),
{
    assert(Seq::<u64>::empty().map_values(|g: u64| ready_entry(g)) =~= Seq::<JsonTree>::empty());
}

/// What a client is yet to learn of each guild is its id, the text of what is stored of
/// it, and whether it is out of reach.
pub proof fn law_pending_is_what_is_stored(cache: CacheView, order: Seq<u64>, i: int)
    requires
        0 <= i < order.len(),
    ensures
        cache.all_pending(order).len() == order.len(),
        cache.all_pending(order)[i].guild == order[i],
        cache.all_pending(order)[i].json == printed_json(cache.guilds[order[i]].tree),
        cache.all_pending(order)[i].unavailable == cache.guilds[order[i]].unavailable,
{
}

/// A guild that is in reach is announced by GUILD_CREATE, with its number and then its
/// JSON as it is; one that is out of reach by GUILD_DELETE, with its number and its id.
pub proof fn law_payload_text(pending: PendingView, sequence: nat)
    ensures
        !pending.unavailable ==> guild_payload(pending, sequence)
            == "{\"op\":0,\"t\":\"GUILD_CREATE\",\"s\":"@ + decimal(sequence) + ",\"d\":"@
            + pending.json + "}"@,
        pending.unavailable ==> guild_payload(pending, sequence)
            == "{\"op\":0,\"t\":\"GUILD_DELETE\",\"s\":"@ + decimal(sequence)
            + ",\"d\":{\"id\":\""@ + decimal(pending.guild as nat) + "\",\"unavailable\":true}}"@,
{
}

/// A client is authorized for the guilds in its set; a message is what it reads as.
pub proof fn law_arguments_are_taken_as_they_are(set: &HashSet<u64>, message: Json)
    ensures
        authorized_set(Some(set)) == Some(set@),
        authorized_set(None) is None,
        message_tree(Some(message)) == Some(message@),
        message_tree(None) is None,
{
}

/// What a guild reads as is what its text reads as, and a guild that is not known does
/// not read.
pub proof fn law_guild_reads_as_its_text(cache: CacheView, guild: u64)
    ensures
        cache.guild_tree(guild) == match cache.guilds.get(guild) {
            Some(entry) => parsed_json(printed_json(entry.tree)),
            None => None,
        },
{
}

} // verus!
