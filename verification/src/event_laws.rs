//! What each dispatch event makes of the cache, told by what is in the payload, what
//! the guild reads as before, and what is stored of it after.
use crate::cache_model::{event_named, id_number, names, CacheView, EntryView, Event};
use crate::codec::{parsed_json, printed_json};
use crate::guild::{
    channel_removed, item_dropped, item_upserted, known_member, member_refreshed,
};
use crate::items::{all_upserted, dropped, has_id, is_first, is_last, lemma_first_unique, upserted, IdPlace};
use crate::json::JsonTree;
use crate::text::{decimal, number_of};
use vstd::prelude::*;

verus! {

// --- Names of events ---

/// The names stand for the events that they are named after.
proof fn lemma_event_names()
    ensures
        event_named("GUILD_CREATE"@) == Some(Event::GuildCreate),
        event_named("GUILD_UPDATE"@) == Some(Event::GuildUpdate),
        event_named("GUILD_DELETE"@) == Some(Event::GuildDelete),
        event_named("CHANNEL_CREATE"@) == Some(Event::ChannelCreate),
        event_named("THREAD_CREATE"@) == Some(Event::ThreadCreate),
        event_named("CHANNEL_UPDATE"@) == Some(Event::ChannelUpdate),
        event_named("THREAD_UPDATE"@) == Some(Event::ChannelUpdate),
        event_named("CHANNEL_DELETE"@) == Some(Event::ChannelDelete),
        event_named("THREAD_DELETE"@) == Some(Event::ChannelDelete),
        event_named("THREAD_LIST_SYNC"@) == Some(Event::ThreadListSync),
        event_named("ROLE_CREATE"@) == Some(Event::RoleUpsert),
        event_named("ROLE_UPDATE"@) == Some(Event::RoleUpsert),
        event_named("ROLE_DELETE"@) == Some(Event::RoleDelete),
        event_named("GUILD_EMOJIS_UPDATE"@) == Some(Event::EmojisUpdate),
        event_named("GUILD_STICKERS_UPDATE"@) == Some(Event::StickersUpdate),
        event_named("VOICE_STATE_UPDATE"@) == Some(Event::VoiceStateUpdate),
        event_named("GUILD_MEMBER_ADD"@) == Some(Event::MemberUpsert),
        event_named("GUILD_MEMBER_UPDATE"@) == Some(Event::MemberUpsert),
        event_named("GUILD_MEMBER_REMOVE"@) == Some(Event::MemberRemove),
        event_named("GUILD_MEMBERS_CHUNK"@) == Some(Event::MembersChunk),
{
    reveal_strlit("GUILD_CREATE");
    reveal_strlit("GUILD_UPDATE");
    reveal_strlit("GUILD_DELETE");
    reveal_strlit("CHANNEL_CREATE");
    reveal_strlit("THREAD_CREATE");
    reveal_strlit("CHANNEL_UPDATE");
    reveal_strlit("THREAD_UPDATE");
    reveal_strlit("CHANNEL_DELETE");
    reveal_strlit("THREAD_DELETE");
    reveal_strlit("THREAD_LIST_SYNC");
    reveal_strlit("ROLE_CREATE");
    reveal_strlit("ROLE_UPDATE");
    reveal_strlit("ROLE_DELETE");
    reveal_strlit("GUILD_EMOJIS_UPDATE");
    reveal_strlit("GUILD_STICKERS_UPDATE");
    reveal_strlit("VOICE_STATE_UPDATE");
    reveal_strlit("GUILD_MEMBER_ADD");
    reveal_strlit("GUILD_MEMBER_UPDATE");
    reveal_strlit("GUILD_MEMBER_REMOVE");
    reveal_strlit("GUILD_MEMBERS_CHUNK");
    assert("GUILD_CREATE"@.len() == 12 && "GUILD_CREATE"@[6] == 'C');
    assert("GUILD_UPDATE"@.len() == 12 && "GUILD_UPDATE"@[6] == 'U');
    assert("GUILD_DELETE"@.len() == 12 && "GUILD_DELETE"@[6] == 'D');
    assert("CHANNEL_CREATE"@.len() == 14 && "CHANNEL_CREATE"@[8] == 'C');
    assert("CHANNEL_UPDATE"@.len() == 14 && "CHANNEL_UPDATE"@[8] == 'U');
    assert("CHANNEL_DELETE"@.len() == 14 && "CHANNEL_DELETE"@[8] == 'D');
    assert("THREAD_CREATE"@.len() == 13 && "THREAD_CREATE"@[7] == 'C');
    assert("THREAD_UPDATE"@.len() == 13 && "THREAD_UPDATE"@[7] == 'U');
    assert("THREAD_DELETE"@.len() == 13 && "THREAD_DELETE"@[7] == 'D');
    assert("THREAD_LIST_SYNC"@.len() == 16 && "THREAD_LIST_SYNC"@[0] == 'T');
    assert("ROLE_CREATE"@.len() == 11 && "ROLE_CREATE"@[5] == 'C');
    assert("ROLE_UPDATE"@.len() == 11 && "ROLE_UPDATE"@[5] == 'U');
    assert("ROLE_DELETE"@.len() == 11 && "ROLE_DELETE"@[5] == 'D');
    assert("GUILD_EMOJIS_UPDATE"@.len() == 19 && "GUILD_EMOJIS_UPDATE"@[6] == 'E');
    assert("GUILD_STICKERS_UPDATE"@.len() == 21);
    assert("VOICE_STATE_UPDATE"@.len() == 18);
    assert("GUILD_MEMBER_ADD"@.len() == 16 && "GUILD_MEMBER_ADD"@[0] == 'G');
    assert("GUILD_MEMBER_UPDATE"@.len() == 19 && "GUILD_MEMBER_UPDATE"@[6] == 'M');
    assert("GUILD_MEMBER_UPDATE"@[12] == '_' && "GUILD_MEMBER_UPDATE"@[13] == 'U');
    assert("GUILD_MEMBER_REMOVE"@.len() == 19 && "GUILD_MEMBER_REMOVE"@[6] == 'M');
    assert("GUILD_MEMBER_REMOVE"@[12] == '_' && "GUILD_MEMBER_REMOVE"@[13] == 'R');
    assert("GUILD_MEMBERS_CHUNK"@.len() == 19 && "GUILD_MEMBERS_CHUNK"@[6] == 'M');
    assert("GUILD_MEMBERS_CHUNK"@[12] == 'S');
}

/// The names of the members that events change are all different.
proof fn lemma_keys_differ()
    ensures
        "channels"@ != "threads"@,
        "members"@ != "voice_states"@,
        "user"@ != "guild_id"@,
        "user_id"@ != "guild_id"@,
        "channel_id"@ != "guild_id"@,
        "member"@ != "guild_id"@,
        "member"@ != "user_id"@,
{
    reveal_strlit("channels");
    reveal_strlit("threads");
    reveal_strlit("members");
    reveal_strlit("voice_states");
    reveal_strlit("user");
    reveal_strlit("user_id");
    reveal_strlit("guild_id");
    reveal_strlit("channel_id");
    reveal_strlit("member");
    assert("channels"@.len() == 8 && "threads"@.len() == 7);
    assert("members"@.len() == 7 && "voice_states"@.len() == 12);
    assert("user"@.len() == 4 && "guild_id"@.len() == 8 && "user_id"@.len() == 7);
    assert("channel_id"@.len() == 10 && "member"@.len() == 6);
}

// --- Words for what is stored ---

/// Whether a known guild reads as an object with the given members.
pub open spec fn reads_as(cache: CacheView, guild: u64, fields: Map<Seq<char>, JsonTree>) -> bool {
    cache.guilds.contains_key(guild) && parsed_json(printed_json(cache.guilds[guild].tree)) == Some(
        JsonTree::Object(fields),
    )
}

/// Whether a guild is not known, or what is stored of it does not read.
pub open spec fn does_not_read(cache: CacheView, guild: u64) -> bool {
    !cache.guilds.contains_key(guild) || parsed_json(printed_json(cache.guilds[guild].tree)) is None
}

/// The cache with the members of one guild as given, and everything else as it is.
pub open spec fn with_fields(
    cache: CacheView,
    guild: u64,
    fields: Map<Seq<char>, JsonTree>,
) -> CacheView {
    CacheView {
        guilds: cache.guilds.insert(
            guild,
            EntryView {
                tree: JsonTree::Object(fields),
                unavailable: cache.guilds[guild].unavailable,
            },
        ),
        channels: cache.channels,
    }
}

/// Whether the member `key` is an array with the given items.
pub open spec fn has_items(
    fields: Map<Seq<char>, JsonTree>,
    key: Seq<char>,
    items: Seq<JsonTree>,
) -> bool {
    fields.contains_key(key) && fields[key] == JsonTree::Array(items)
}

/// Whether the member `key` is no array.
pub open spec fn has_no_items(fields: Map<Seq<char>, JsonTree>, key: Seq<char>) -> bool {
    fields.contains_key(key) ==> !(fields[key] is Array)
}

/// The id of a channel, thread or role.
pub open spec fn own_id(item: JsonTree) -> Option<Seq<char>> {
    item.at("id"@).as_text()
}

/// The id of the user of a member.
pub open spec fn member_user(item: JsonTree) -> Option<Seq<char>> {
    item.at("user"@).at("id"@).as_text()
}

/// The id of the user of a voice state.
pub open spec fn voice_user(item: JsonTree) -> Option<Seq<char>> {
    item.at("user_id"@).as_text()
}

/// Whether `i` is the first position of an item with the id.
pub open spec fn stands_first(
    items: Seq<JsonTree>,
    id_of: spec_fn(JsonTree) -> Option<Seq<char>>,
    id: Seq<char>,
    i: int,
) -> bool {
    0 <= i < items.len() && id_of(items[i]) == Some(id) && forall|j: int|
        0 <= j < i ==> id_of(#[trigger] items[j]) != Some(id)
}

/// Whether `i` is the last position of an item with the id.
pub open spec fn stands_last(
    items: Seq<JsonTree>,
    id_of: spec_fn(JsonTree) -> Option<Seq<char>>,
    id: Seq<char>,
    i: int,
) -> bool {
    0 <= i < items.len() && id_of(items[i]) == Some(id) && forall|j: int|
        i < j < items.len() ==> id_of(#[trigger] items[j]) != Some(id)
}

/// Whether no item has the id.
pub open spec fn stands_nowhere(
    items: Seq<JsonTree>,
    id_of: spec_fn(JsonTree) -> Option<Seq<char>>,
    id: Seq<char>,
) -> bool {
    forall|i: int| 0 <= i < items.len() ==> id_of(#[trigger] items[i]) != Some(id)
}

/// Whether `after` is `before` with the item in the place of the first that has the
/// id, or at the end where none has it.
pub open spec fn is_upsert(
    before: Seq<JsonTree>,
    after: Seq<JsonTree>,
    id_of: spec_fn(JsonTree) -> Option<Seq<char>>,
    id: Seq<char>,
    item: JsonTree,
) -> bool {
    &&& forall|i: int| #[trigger]
        stands_first(before, id_of, id, i) ==> after == before.update(i, item)
    &&& stands_nowhere(before, id_of, id) ==> after == before.push(item)
}

/// Whether an item has the given number for its id.
pub open spec fn has_number(item: JsonTree, number: u64) -> bool {
    own_id(item) is Some && number_of(own_id(item)->Some_0) == Some(number)
}

/// Whether an array, if it is one, has an item with the given number for its id.
pub open spec fn array_has_number(tree: JsonTree, number: u64) -> bool {
    tree is Array && exists|i: int|
        0 <= i < tree->Array_0.len() && has_number(#[trigger] tree->Array_0[i], number)
}

/// Filtering by the same test gives the same.
proof fn lemma_dropped(
    items: Seq<JsonTree>,
    place: IdPlace,
    id: Seq<char>,
    keep: spec_fn(JsonTree) -> bool,
)
    requires
        forall|item: JsonTree| #[trigger] keep(item) == (place.id_of(item) != Some(id)),
    ensures
        dropped(items, place, id) == items.filter(keep),
{
    assert(place.differs(id) =~= keep);
}

/// An upsert by the library is an upsert.
proof fn lemma_upserted(
    items: Seq<JsonTree>,
    place: IdPlace,
    id_of: spec_fn(JsonTree) -> Option<Seq<char>>,
    id: Seq<char>,
    item: JsonTree,
)
    requires
        forall|item: JsonTree| #[trigger] id_of(item) == place.id_of(item),
    ensures
        is_upsert(items, upserted(items, place, id, item), id_of, id, item),
{
    let after = upserted(items, place, id, item);
    assert forall|i: int| #[trigger] stands_first(items, id_of, id, i) implies after
        == items.update(i, item) by {
        assert(is_first(items, place, id, i)) by {
            assert forall|j: int| 0 <= j < i implies place.id_of(#[trigger] items[j]) != Some(
                id,
            ) by {
                assert(id_of(items[j]) != Some(id));
            }
        }
        lemma_first_unique(items, place, id, i);
    }
    if stands_nowhere(items, id_of, id) {
        if has_id(items, place, id) {
            let k = choose|k: int| is_first(items, place, id, k);
            assert(is_first(items, place, id, k));
            assert(id_of(items[k]) == Some(id));
        }
    }
}

// --- What happens for each event ---

/// An event of any other name changes nothing.
pub proof fn law_only_named_events_count(
    cache: CacheView,
    name: Seq<char>,
    message: Option<JsonTree>,
    guild: Option<u64>,
)
    requires
        name != "GUILD_CREATE"@,
        name != "GUILD_UPDATE"@,
        name != "GUILD_DELETE"@,
        name != "CHANNEL_CREATE"@,
        name != "THREAD_CREATE"@,
        name != "CHANNEL_UPDATE"@,
        name != "THREAD_UPDATE"@,
        name != "CHANNEL_DELETE"@,
        name != "THREAD_DELETE"@,
        name != "THREAD_LIST_SYNC"@,
        name != "ROLE_CREATE"@,
        name != "ROLE_UPDATE"@,
        name != "ROLE_DELETE"@,
        name != "GUILD_EMOJIS_UPDATE"@,
        name != "GUILD_STICKERS_UPDATE"@,
        name != "VOICE_STATE_UPDATE"@,
        name != "GUILD_MEMBER_ADD"@,
        name != "GUILD_MEMBER_UPDATE"@,
        name != "GUILD_MEMBER_REMOVE"@,
        name != "GUILD_MEMBERS_CHUNK"@,
    ensures
        cache.after_named(name, message, guild) == cache,
{
}

/// An event does the same whether it comes by its name or as itself, and there is no
/// event without a name.
pub proof fn law_event_goes_by_its_name(
    cache: CacheView,
    event: Event,
    message: Option<JsonTree>,
    guild: Option<u64>,
)
    ensures
        cache.after(event, message, guild) == cache.after_named(
            match event {
                Event::GuildCreate => "GUILD_CREATE"@,
                Event::GuildUpdate => "GUILD_UPDATE"@,
                Event::GuildDelete => "GUILD_DELETE"@,
                Event::ChannelCreate => "CHANNEL_CREATE"@,
                Event::ThreadCreate => "THREAD_CREATE"@,
                Event::ChannelUpdate => "CHANNEL_UPDATE"@,
                Event::ChannelDelete => "CHANNEL_DELETE"@,
                Event::ThreadListSync => "THREAD_LIST_SYNC"@,
                Event::RoleUpsert => "ROLE_CREATE"@,
                Event::RoleDelete => "ROLE_DELETE"@,
                Event::EmojisUpdate => "GUILD_EMOJIS_UPDATE"@,
                Event::StickersUpdate => "GUILD_STICKERS_UPDATE"@,
                Event::VoiceStateUpdate => "VOICE_STATE_UPDATE"@,
                Event::MemberUpsert => "GUILD_MEMBER_ADD"@,
                Event::MemberRemove => "GUILD_MEMBER_REMOVE"@,
                Event::MembersChunk => "GUILD_MEMBERS_CHUNK"@,
            },
            message,
            guild,
        ),
{
    lemma_event_names();
}

/// Without a payload that reads only a deletion of a guild counts, and without a
/// guild only a creation of one.
pub proof fn law_event_needs_payload_and_guild(
    cache: CacheView,
    name: Seq<char>,
    message: Option<JsonTree>,
    guild: Option<u64>,
)
    ensures
        message is None && name != "GUILD_DELETE"@ ==> cache.after_named(name, message, guild)
            == cache,
        guild is None && name != "GUILD_CREATE"@ ==> cache.after_named(name, message, guild)
            == cache,
{
    lemma_event_names();
}

/// GUILD_CREATE: the guild of the payload is stored as it comes, whatever was stored
/// of it before, and each of its channels and threads that has a number for its id
/// belongs to it from then on. Nothing else changes.
pub proof fn law_guild_create(
    cache: CacheView,
    message: JsonTree,
    guild: Option<u64>,
    id: Seq<char>,
    created: u64,
)
    requires
        message.at("d"@).at("id"@) == JsonTree::Text(id),
        number_of(id) == Some(created),
    ensures
        ({
            let data = message.at("d"@);
            let after = cache.after_named("GUILD_CREATE"@, Some(message), guild);
            &&& after.guilds == cache.guilds.insert(
                created,
                EntryView {
                    tree: data,
                    unavailable: data.at("unavailable"@) == JsonTree::Bool(true),
                },
            )
            &&& forall|channel: u64|
                #![trigger after.channels.get(channel)]
                after.channels.get(channel) == if array_has_number(
                    data.at("channels"@),
                    channel,
                ) || array_has_number(data.at("threads"@), channel) {
                    Some(created)
                } else {
                    cache.channels.get(channel)
                }
        }),
{
    lemma_event_names();
    let data = message.at("d"@);
    assert forall|channel: u64, key: Seq<char>|
        array_has_number(#[trigger] data.at(key), channel) == (data.at(key) is Array && #[trigger]
        names(data.at(key)->Array_0, channel)) by {
        lemma_names(data.at(key), channel);
    }
    assert forall|channel: u64|
        #![trigger cache.after_named("GUILD_CREATE"@, Some(message), guild).channels.get(channel)]
        cache.after_named("GUILD_CREATE"@, Some(message), guild).channels.get(channel)
            == if array_has_number(data.at("channels"@), channel) || array_has_number(
            data.at("threads"@),
            channel,
        ) {
            Some(created)
        } else {
            cache.channels.get(channel)
        } by {
        lemma_names(data.at("channels"@), channel);
        lemma_names(data.at("threads"@), channel);
    }
}

/// An array has an item with a number exactly where it names the number.
proof fn lemma_names(tree: JsonTree, channel: u64)
    ensures
        tree is Array ==> array_has_number(tree, channel) == names(
            tree->Array_0,
            channel,
        ),
{
    if let JsonTree::Array(items) = tree {
        if array_has_number(tree, channel) {
            let i = choose|i: int|
                0 <= i < tree->Array_0.len() && has_number(#[trigger] tree->Array_0[i], channel);
            assert(id_number(items[i]) == Some(channel));
        }
        if names(items, channel) {
            let i = choose|i: int|
                0 <= i < items.len() && id_number(#[trigger] items[i]) == Some(
                    channel,
                );
            assert(has_number(tree->Array_0[i], channel));
        }
    }
}

/// GUILD_CREATE without a number for the guild's id changes nothing.
pub proof fn law_guild_create_needs_a_number(
    cache: CacheView,
    message: JsonTree,
    guild: Option<u64>,
)
    requires
        message.at("d"@).at("id"@) matches JsonTree::Text(id) ==> number_of(id) is None,
    ensures
        cache.after_named("GUILD_CREATE"@, Some(message), guild) == cache,
{
    lemma_event_names();
}

/// GUILD_DELETE: a guild that is said to be unavailable is marked so and stays with
/// all its channels, if it is known; else nothing of it stays.
pub proof fn law_guild_delete(cache: CacheView, message: Option<JsonTree>, guild: u64)
    ensures
        ({
            let after = cache.after_named("GUILD_DELETE"@, message, Some(guild));
            if message is Some && message->Some_0.at("d"@).at("unavailable"@) == JsonTree::Bool(
                true,
            ) {
                &&& after.channels == cache.channels
                &&& if cache.guilds.contains_key(guild) {
                    after.guilds == cache.guilds.insert(
                        guild,
                        EntryView { tree: cache.guilds[guild].tree, unavailable: true },
                    )
                } else {
                    after.guilds == cache.guilds
                }
            } else {
                &&& after.guilds == cache.guilds.remove(guild)
                &&& forall|channel: u64|
                    #![trigger after.channels.get(channel)]
                    after.channels.get(channel) == if cache.channels.get(channel) == Some(guild) {
                        None
                    } else {
                        cache.channels.get(channel)
                    }
            }
        }),
{
    lemma_event_names();
}

/// GUILD_UPDATE: every member that the payload brings has the payload's value, and
/// every other member of the guild stays.
pub proof fn law_guild_update(
    cache: CacheView,
    message: JsonTree,
    guild: u64,
    fields: Map<Seq<char>, JsonTree>,
    changes: Map<Seq<char>, JsonTree>,
)
    requires
        reads_as(cache, guild, fields),
        message.at("d"@) == JsonTree::Object(changes),
    ensures
        ({
            let after = cache.after_named("GUILD_UPDATE"@, Some(message), Some(guild));
            after.guilds[guild].tree matches JsonTree::Object(merged) && {
                &&& after == with_fields(cache, guild, merged)
                &&& forall|key: Seq<char>|
                    #![trigger merged.contains_key(key)]
                    merged.contains_key(key) <==> changes.contains_key(key) || fields.contains_key(
                        key,
                    )
                &&& forall|key: Seq<char>|
                    #![trigger merged[key]]
                    changes.contains_key(key) ==> merged[key] == changes[key]
                &&& forall|key: Seq<char>|
                    #![trigger merged[key]]
                    !changes.contains_key(key) && fields.contains_key(key) ==> merged[key]
                        == fields[key]
            }
        }),
{
    lemma_event_names();
}

/// CHANNEL_CREATE and THREAD_CREATE: the channel belongs to the guild. It stands last
/// in its array, and those with other ids stand before it in the order they had. The
/// rest of the guild stays.
pub proof fn law_channel_create(
    cache: CacheView,
    name: Seq<char>,
    key: Seq<char>,
    message: JsonTree,
    guild: u64,
    fields: Map<Seq<char>, JsonTree>,
    id: Seq<char>,
    number: u64,
)
    requires
        name == "CHANNEL_CREATE"@ && key == "channels"@ || name == "THREAD_CREATE"@ && key
            == "threads"@,
        reads_as(cache, guild, fields),
        message.at("d"@).at("id"@) == JsonTree::Text(id),
        number_of(id) == Some(number),
    ensures
        ({
            let after = cache.after_named(name, Some(message), Some(guild));
            let moved = CacheView {
                guilds: cache.guilds,
                channels: cache.channels.insert(number, guild),
            };
            &&& forall|items: Seq<JsonTree>| #[trigger]
                has_items(fields, key, items) ==> after == with_fields(
                    moved,
                    guild,
                    fields.insert(
                        key,
                        JsonTree::Array(
                            items.filter(
                                |item: JsonTree| item.at("id"@).as_text() != Some(id),
                            ).push(message.at("d"@)),
                        ),
                    ),
                )
            &&& has_no_items(fields, key) ==> after == with_fields(moved, guild, fields)
        }),
{
    lemma_event_names();
    if let JsonTree::Array(items) = JsonTree::Object(fields).at(key) {
        lemma_dropped(
            items,
            IdPlace::Own,
            id,
            |item: JsonTree| item.at("id"@).as_text() != Some(id),
        );
    }
}

/// CHANNEL_UPDATE and THREAD_UPDATE: the channel comes in the place of the first
/// channel with its id, or else of the first thread with its id. Nothing else changes,
/// and nothing at all where there is none.
pub proof fn law_channel_update(
    cache: CacheView,
    name: Seq<char>,
    message: JsonTree,
    guild: u64,
    fields: Map<Seq<char>, JsonTree>,
    id: Seq<char>,
)
    requires
        name == "CHANNEL_UPDATE"@ || name == "THREAD_UPDATE"@,
        reads_as(cache, guild, fields),
        message.at("d"@).at("id"@) == JsonTree::Text(id),
    ensures
        ({
            let after = cache.after_named(name, Some(message), Some(guild));
            let own = |item: JsonTree| own_id(item);
            let no_channel = forall|items: Seq<JsonTree>| #[trigger]
                has_items(fields, "channels"@, items) ==> stands_nowhere(items, own, id);
            let no_thread = forall|items: Seq<JsonTree>| #[trigger]
                has_items(fields, "threads"@, items) ==> stands_nowhere(items, own, id);
            &&& forall|items: Seq<JsonTree>, i: int|
                #![trigger has_items(fields, "channels"@, items), stands_first(items, own, id, i)]
                has_items(fields, "channels"@, items) && stands_first(items, own, id, i) ==> after
                    == with_fields(
                    cache,
                    guild,
                    fields.insert(
                        "channels"@,
                        JsonTree::Array(items.update(i, message.at("d"@))),
                    ),
                )
            &&& forall|items: Seq<JsonTree>, i: int|
                #![trigger has_items(fields, "threads"@, items), stands_first(items, own, id, i)]
                no_channel && has_items(fields, "threads"@, items) && stands_first(items, own, id, i)
                    ==> after == with_fields(
                    cache,
                    guild,
                    fields.insert(
                        "threads"@,
                        JsonTree::Array(items.update(i, message.at("d"@))),
                    ),
                )
            &&& no_channel && no_thread ==> after == with_fields(cache, guild, fields)
        }),
{
    lemma_event_names();
    lemma_keys_differ();
    let own = |item: JsonTree| own_id(item);
    assert forall|items: Seq<JsonTree>, i: int| #[trigger]
        stands_first(items, own, id, i) implies has_id(items, IdPlace::Own, id) && (choose|k: int|
        is_first(items, IdPlace::Own, id, k)) == i by {
        lemma_stands_first(items, id, i);
    }
    assert forall|items: Seq<JsonTree>| #[trigger] stands_nowhere(items, own, id) implies !has_id(
        items,
        IdPlace::Own,
        id,
    ) by {
        if has_id(items, IdPlace::Own, id) {
            let k = choose|k: int| is_first(items, IdPlace::Own, id, k);
            assert(is_first(items, IdPlace::Own, id, k));
            assert(own(items[k]) == Some(id));
        }
    }
    if let JsonTree::Array(items) = JsonTree::Object(fields).at("channels"@) {
        assert(has_items(fields, "channels"@, items));
    }
    if let JsonTree::Array(items) = JsonTree::Object(fields).at("threads"@) {
        assert(has_items(fields, "threads"@, items));
    }
}

/// The first position of an item with the id is the first.
proof fn lemma_stands_first(items: Seq<JsonTree>, id: Seq<char>, i: int)
    requires
        stands_first(items, |item: JsonTree| own_id(item), id, i),
    ensures
        has_id(items, IdPlace::Own, id),
        (choose|k: int| is_first(items, IdPlace::Own, id, k)) == i,
{
    let own = |item: JsonTree| own_id(item);
    assert(is_first(items, IdPlace::Own, id, i)) by {
        assert forall|j: int| 0 <= j < i implies IdPlace::Own.id_of(#[trigger] items[j]) != Some(
            id,
        ) by {
            assert(own(items[j]) != Some(id));
        }
    }
    lemma_first_unique(items, IdPlace::Own, id, i);
}

/// What is left of the arrays of channels and threads of a guild.
pub open spec fn without_channel(fields: Map<Seq<char>, JsonTree>, id: Seq<char>) -> Map<
    Seq<char>,
    JsonTree,
> {
    Map::new(
        |key: Seq<char>| fields.contains_key(key),
        |key: Seq<char>|
            if (key == "channels"@ || key == "threads"@) && fields[key] is Array {
                JsonTree::Array(
                    fields[key]->Array_0.filter(
                        |item: JsonTree| item.at("id"@).as_text() != Some(id),
                    ),
                )
            } else {
                fields[key]
            },
    )
}

/// CHANNEL_DELETE and THREAD_DELETE: the channel belongs to no guild. Of the channels
/// and threads of the guild those with other ids stay in the order they had, and so
/// does the rest of the guild.
pub proof fn law_channel_delete(
    cache: CacheView,
    name: Seq<char>,
    message: JsonTree,
    guild: u64,
    fields: Map<Seq<char>, JsonTree>,
    id: Seq<char>,
    number: u64,
)
    requires
        name == "CHANNEL_DELETE"@ || name == "THREAD_DELETE"@,
        reads_as(cache, guild, fields),
        message.at("d"@).at("id"@) == JsonTree::Text(id),
        number_of(id) == Some(number),
    ensures
        cache.after_named(name, Some(message), Some(guild)) == with_fields(
            CacheView { guilds: cache.guilds, channels: cache.channels.remove(number) },
            guild,
            without_channel(fields, decimal(number as nat)),
        ),
{
    lemma_event_names();
    lemma_keys_differ();
    let text = decimal(number as nat);
    let tree = JsonTree::Object(fields);
    let keep = |item: JsonTree| item.at("id"@).as_text() != Some(text);
    if let JsonTree::Array(items) = tree.at("channels"@) {
        lemma_dropped(items, IdPlace::Own, text, keep);
    }
    if let JsonTree::Array(items) = tree.at("threads"@) {
        lemma_dropped(items, IdPlace::Own, text, keep);
    }
    let left = without_channel(fields, text);
    let done = channel_removed(tree, text);
    assert(done is Object);
    assert(done->Object_0 =~= left);
}

/// THREAD_LIST_SYNC: the guild's threads are those of the payload, whatever they were
/// before, and each of them that has a number for its id belongs to the guild.
pub proof fn law_thread_list_sync(
    cache: CacheView,
    message: JsonTree,
    guild: u64,
    fields: Map<Seq<char>, JsonTree>,
    threads: Seq<JsonTree>,
)
    requires
        reads_as(cache, guild, fields),
        message.at("d"@).at("threads"@) == JsonTree::Array(threads),
    ensures
        ({
            let after = cache.after_named("THREAD_LIST_SYNC"@, Some(message), Some(guild));
            &&& after.guilds == with_fields(
                cache,
                guild,
                fields.insert("threads"@, JsonTree::Array(threads)),
            ).guilds
            &&& forall|channel: u64|
                #![trigger after.channels.get(channel)]
                after.channels.get(channel) == if array_has_number(
                    JsonTree::Array(threads),
                    channel,
                ) {
                    Some(guild)
                } else {
                    cache.channels.get(channel)
                }
        }),
{
    lemma_event_names();
    assert forall|channel: u64|
        #![trigger cache.after_named("THREAD_LIST_SYNC"@, Some(message), Some(guild)).channels.get(channel)]
        cache.after_named("THREAD_LIST_SYNC"@, Some(message), Some(guild)).channels.get(channel)
            == if array_has_number(JsonTree::Array(threads), channel) {
            Some(guild)
        } else {
            cache.channels.get(channel)
        } by {
        lemma_names(JsonTree::Array(threads), channel);
    }
}

/// ROLE_CREATE and ROLE_UPDATE: the role comes in the place of the first role with its
/// id, or last where there is none. Nothing else changes.
pub proof fn law_role_upsert(
    cache: CacheView,
    name: Seq<char>,
    message: JsonTree,
    guild: u64,
    fields: Map<Seq<char>, JsonTree>,
    id: Seq<char>,
)
    requires
        name == "ROLE_CREATE"@ || name == "ROLE_UPDATE"@,
        reads_as(cache, guild, fields),
        message.at("d"@).at("role"@).at("id"@) == JsonTree::Text(id),
    ensures
        ({
            let after = cache.after_named(name, Some(message), Some(guild));
            let roles = after.guilds[guild].tree.at("roles"@);
            &&& forall|items: Seq<JsonTree>| #[trigger]
                has_items(fields, "roles"@, items) ==> {
                    &&& roles is Array
                    &&& after == with_fields(cache, guild, fields.insert("roles"@, roles))
                    &&& is_upsert(
                        items,
                        roles->Array_0,
                        |item: JsonTree| own_id(item),
                        id,
                        message.at("d"@).at("role"@),
                    )
                }
            &&& has_no_items(fields, "roles"@) ==> after == with_fields(cache, guild, fields)
        }),
{
    lemma_event_names();
    if let JsonTree::Array(items) = JsonTree::Object(fields).at("roles"@) {
        lemma_upserted(
            items,
            IdPlace::Own,
            |item: JsonTree| own_id(item),
            id,
            message.at("d"@).at("role"@),
        );
    }
}

/// ROLE_DELETE: the roles with other ids stay in the order they had, and no others.
/// Nothing else changes.
pub proof fn law_role_delete(
    cache: CacheView,
    message: JsonTree,
    guild: u64,
    fields: Map<Seq<char>, JsonTree>,
    id: Seq<char>,
)
    requires
        reads_as(cache, guild, fields),
        message.at("d"@).at("role_id"@) == JsonTree::Text(id),
    ensures
        ({
            let after = cache.after_named("ROLE_DELETE"@, Some(message), Some(guild));
            &&& forall|items: Seq<JsonTree>| #[trigger]
                has_items(fields, "roles"@, items) ==> after == with_fields(
                    cache,
                    guild,
                    fields.insert(
                        "roles"@,
                        JsonTree::Array(
                            items.filter(|item: JsonTree| item.at("id"@).as_text() != Some(id)),
                        ),
                    ),
                )
            &&& has_no_items(fields, "roles"@) ==> after == with_fields(cache, guild, fields)
        }),
{
    lemma_event_names();
    if let JsonTree::Array(items) = JsonTree::Object(fields).at("roles"@) {
        lemma_dropped(
            items,
            IdPlace::Own,
            id,
            |item: JsonTree| item.at("id"@).as_text() != Some(id),
        );
    }
}

/// GUILD_EMOJIS_UPDATE and GUILD_STICKERS_UPDATE: the guild has the emojis, or
/// stickers, of the payload, whatever it had before. Nothing else changes.
pub proof fn law_field_replace(
    cache: CacheView,
    name: Seq<char>,
    key: Seq<char>,
    message: JsonTree,
    guild: u64,
    fields: Map<Seq<char>, JsonTree>,
)
    requires
        name == "GUILD_EMOJIS_UPDATE"@ && key == "emojis"@ || name == "GUILD_STICKERS_UPDATE"@
            && key == "stickers"@,
        reads_as(cache, guild, fields),
        message.at("d"@).at(key) != JsonTree::Null,
    ensures
        cache.after_named(name, Some(message), Some(guild)) == with_fields(
            cache,
            guild,
            fields.insert(key, message.at("d"@).at(key)),
        ),
{
    lemma_event_names();
}

/// VOICE_STATE_UPDATE of a user who is in no channel any more: the voice states of the
/// other users stay in the order they had, and no others. Nothing else changes.
pub proof fn law_voice_state_left(
    cache: CacheView,
    message: JsonTree,
    guild: u64,
    fields: Map<Seq<char>, JsonTree>,
    user: Seq<char>,
)
    requires
        reads_as(cache, guild, fields),
        message.at("d"@).at("user_id"@) == JsonTree::Text(user),
        message.at("d"@).at("channel_id"@) == JsonTree::Null,
    ensures
        ({
            let after = cache.after_named("VOICE_STATE_UPDATE"@, Some(message), Some(guild));
            &&& forall|states: Seq<JsonTree>| #[trigger]
                has_items(fields, "voice_states"@, states) ==> after == with_fields(
                    cache,
                    guild,
                    fields.insert(
                        "voice_states"@,
                        JsonTree::Array(
                            states.filter(
                                |state: JsonTree| state.at("user_id"@).as_text() != Some(user),
                            ),
                        ),
                    ),
                )
            &&& has_no_items(fields, "voice_states"@) ==> after == with_fields(cache, guild, fields)
        }),
{
    lemma_event_names();
    lemma_keys_differ();
    if let JsonTree::Array(states) = JsonTree::Object(fields).at("voice_states"@) {
        lemma_dropped(
            states,
            IdPlace::UserId,
            user,
            |state: JsonTree| state.at("user_id"@).as_text() != Some(user),
        );
    }
}

/// VOICE_STATE_UPDATE of a user who is in a channel: the voice states of the other
/// users stay in the order they had, and the new one stands behind them, without the
/// guild's id. Where it brings no member, it gets the one that the user's last voice
/// state had. Nothing else changes.
pub proof fn law_voice_state_joined(
    cache: CacheView,
    message: JsonTree,
    guild: u64,
    fields: Map<Seq<char>, JsonTree>,
    user: Seq<char>,
    state: Map<Seq<char>, JsonTree>,
)
    requires
        reads_as(cache, guild, fields),
        message.at("d"@) == JsonTree::Object(state),
        message.at("d"@).at("user_id"@) == JsonTree::Text(user),
        message.at("d"@).at("channel_id"@) != JsonTree::Null,
    ensures
        ({
            let after = cache.after_named("VOICE_STATE_UPDATE"@, Some(message), Some(guild));
            let own = state.remove("guild_id"@);
            let brings_member = state.contains_key("member"@) && state["member"@] is Object;
            &&& forall|states: Seq<JsonTree>| #[trigger]
                has_items(fields, "voice_states"@, states) ==> {
                    let others = states.filter(
                        |state: JsonTree| state.at("user_id"@).as_text() != Some(user),
                    );
                    let users = |state: JsonTree| voice_user(state);
                    &&& forall|i: int|
                        #![trigger stands_last(states, users, user, i)]
                        !brings_member && stands_last(states, users, user, i) && states[i].at(
                            "member"@,
                        ) is Object ==> after == with_fields(
                            cache,
                            guild,
                            fields.insert(
                                "voice_states"@,
                                JsonTree::Array(
                                    others.push(
                                        JsonTree::Object(
                                            own.insert("member"@, states[i].at("member"@)),
                                        ),
                                    ),
                                ),
                            ),
                        )
                    &&& brings_member || stands_nowhere(states, users, user) || (exists|i: int|
                        #[trigger] stands_last(states, users, user, i) && !(states[i].at(
                            "member"@,
                        ) is Object)) ==> after == with_fields(
                        cache,
                        guild,
                        fields.insert(
                            "voice_states"@,
                            JsonTree::Array(others.push(JsonTree::Object(own))),
                        ),
                    )
                }
            &&& has_no_items(fields, "voice_states"@) ==> after == with_fields(
                cache,
                guild,
                fields.insert("voice_states"@, JsonTree::Array(seq![JsonTree::Object(own)])),
            )
        }),
{
    lemma_event_names();
    lemma_keys_differ();
    let users = |state: JsonTree| voice_user(state);
    if let JsonTree::Array(states) = JsonTree::Object(fields).at("voice_states"@) {
        lemma_dropped(
            states,
            IdPlace::UserId,
            user,
            |state: JsonTree| state.at("user_id"@).as_text() != Some(user),
        );
        assert forall|i: int| #[trigger] stands_last(states, users, user, i) implies known_member(
            states,
            user,
        ) == states[i].at("member"@) by {
            lemma_known_member(states, user, i);
        }
        if stands_nowhere(states, users, user) {
            if exists|i: int| is_last(states, IdPlace::UserId, user, i) {
                let i = choose|i: int| is_last(states, IdPlace::UserId, user, i);
                assert(is_last(states, IdPlace::UserId, user, i));
                assert(users(states[i]) == Some(user));
            }
        }
    }
}

/// The known member is that of the last voice state.
proof fn lemma_known_member(states: Seq<JsonTree>, user: Seq<char>, i: int)
    requires
        stands_last(states, |state: JsonTree| voice_user(state), user, i),
    ensures
        known_member(states, user) == states[i].at("member"@),
{
    let users = |state: JsonTree| voice_user(state);
    assert(is_last(states, IdPlace::UserId, user, i)) by {
        assert forall|j: int| i < j < states.len() implies IdPlace::UserId.id_of(
            #[trigger] states[j],
        ) != Some(user) by {
            assert(users(states[j]) != Some(user));
        }
    }
    let k = choose|k: int| is_last(states, IdPlace::UserId, user, k);
    assert(is_last(states, IdPlace::UserId, user, k));
    assert(IdPlace::UserId.id_of(states[k]) == Some(user));
    assert(IdPlace::UserId.id_of(states[i]) == Some(user));
}

/// Whether `after` are the voice states `before` with the member set in those of the
/// user, and in no others.
pub open spec fn carries_member(
    before: Seq<JsonTree>,
    after: Seq<JsonTree>,
    user: Seq<char>,
    member: JsonTree,
) -> bool {
    &&& after.len() == before.len()
    &&& forall|i: int|
        #![trigger after[i]]
        0 <= i < before.len() ==> after[i] == if voice_user(before[i]) == Some(user) {
            JsonTree::Object(before[i]->Object_0.insert("member"@, member))
        } else {
            before[i]
        }
}

/// GUILD_MEMBER_ADD and GUILD_MEMBER_UPDATE: the member, without the guild's id, comes
/// in the place of the first member with its user, or last where there is none, and
/// into each voice state of the user. Nothing else changes.
pub proof fn law_member_upsert(
    cache: CacheView,
    name: Seq<char>,
    message: JsonTree,
    guild: u64,
    fields: Map<Seq<char>, JsonTree>,
    member: Map<Seq<char>, JsonTree>,
    user: Seq<char>,
)
    requires
        name == "GUILD_MEMBER_ADD"@ || name == "GUILD_MEMBER_UPDATE"@,
        reads_as(cache, guild, fields),
        message.at("d"@) == JsonTree::Object(member),
        message.at("d"@).at("user"@).at("id"@) == JsonTree::Text(user),
    ensures
        ({
            let after = cache.after_named(name, Some(message), Some(guild));
            let own = JsonTree::Object(member.remove("guild_id"@));
            after.guilds[guild].tree matches JsonTree::Object(stored) && {
                &&& after == with_fields(cache, guild, stored)
                &&& forall|key: Seq<char>|
                    #![trigger stored.contains_key(key)]
                    stored.contains_key(key) == fields.contains_key(key)
                &&& forall|key: Seq<char>|
                    #![trigger stored[key]]
                    key != "members"@ && key != "voice_states"@ && fields.contains_key(key)
                        ==> stored[key] == fields[key]
                &&& forall|items: Seq<JsonTree>| #[trigger]
                    has_items(fields, "members"@, items) ==> stored["members"@] is Array
                        && is_upsert(
                        items,
                        stored["members"@]->Array_0,
                        |item: JsonTree| member_user(item),
                        user,
                        own,
                    )
                &&& fields.contains_key("members"@) && has_no_items(fields, "members"@)
                    ==> stored["members"@] == fields["members"@]
                &&& forall|states: Seq<JsonTree>| #[trigger]
                    has_items(fields, "voice_states"@, states) ==> stored["voice_states"@] is Array
                        && carries_member(
                        states,
                        stored["voice_states"@]->Array_0,
                        user,
                        own,
                    )
                &&& fields.contains_key("voice_states"@) && has_no_items(fields, "voice_states"@)
                    ==> stored["voice_states"@] == fields["voice_states"@]
            }
        }),
{
    lemma_event_names();
    lemma_keys_differ();
    let own = JsonTree::Object(member.remove("guild_id"@));
    let tree = JsonTree::Object(fields);
    if let JsonTree::Array(items) = tree.at("members"@) {
        lemma_upserted(items, IdPlace::User, |item: JsonTree| member_user(item), user, own);
    }
    let listed = item_upserted(tree, "members"@, IdPlace::User, user, own);
    assert(listed.at("voice_states"@) == tree.at("voice_states"@));
    if let JsonTree::Array(states) = tree.at("voice_states"@) {
        let fresh = states.map_values(|s: JsonTree| member_refreshed(s, user, own));
        assert(carries_member(states, fresh, user, own));
    }
}

/// GUILD_MEMBER_REMOVE: the members with other users stay in the order they had, and
/// no others, and the same holds of the voice states. Nothing else changes.
pub proof fn law_member_remove(
    cache: CacheView,
    message: JsonTree,
    guild: u64,
    fields: Map<Seq<char>, JsonTree>,
    user: Seq<char>,
)
    requires
        reads_as(cache, guild, fields),
        message.at("d"@).at("user"@).at("id"@) == JsonTree::Text(user),
    ensures
        ({
            let after = cache.after_named("GUILD_MEMBER_REMOVE"@, Some(message), Some(guild));
            after.guilds[guild].tree matches JsonTree::Object(stored) && {
                &&& after == with_fields(cache, guild, stored)
                &&& forall|key: Seq<char>|
                    #![trigger stored.contains_key(key)]
                    stored.contains_key(key) == fields.contains_key(key)
                &&& forall|key: Seq<char>|
                    #![trigger stored[key]]
                    key != "members"@ && key != "voice_states"@ && fields.contains_key(key)
                        ==> stored[key] == fields[key]
                &&& forall|items: Seq<JsonTree>| #[trigger]
                    has_items(fields, "members"@, items) ==> stored["members"@] == JsonTree::Array(
                        items.filter(
                            |item: JsonTree| item.at("user"@).at("id"@).as_text() != Some(user),
                        ),
                    )
                &&& fields.contains_key("members"@) && has_no_items(fields, "members"@)
                    ==> stored["members"@] == fields["members"@]
                &&& forall|states: Seq<JsonTree>| #[trigger]
                    has_items(fields, "voice_states"@, states) ==> stored["voice_states"@]
                        == JsonTree::Array(
                        states.filter(
                            |state: JsonTree| state.at("user_id"@).as_text() != Some(user),
                        ),
                    )
                &&& fields.contains_key("voice_states"@) && has_no_items(fields, "voice_states"@)
                    ==> stored["voice_states"@] == fields["voice_states"@]
            }
        }),
{
    lemma_event_names();
    lemma_keys_differ();
    let tree = JsonTree::Object(fields);
    if let JsonTree::Array(items) = tree.at("members"@) {
        lemma_dropped(
            items,
            IdPlace::User,
            user,
            |item: JsonTree| item.at("user"@).at("id"@).as_text() != Some(user),
        );
    }
    let once = item_dropped(tree, "members"@, IdPlace::User, user);
    assert(once.at("voice_states"@) == tree.at("voice_states"@));
    if let JsonTree::Array(states) = tree.at("voice_states"@) {
        lemma_dropped(
            states,
            IdPlace::UserId,
            user,
            |state: JsonTree| state.at("user_id"@).as_text() != Some(user),
        );
    }
}

/// GUILD_MEMBERS_CHUNK: a chunk without members makes a list of members where the
/// guild has none, and leaves it else. A chunk with one member more does what the
/// chunk without it does, and then that member, if it has a user, comes in the place
/// of the first with that user, or last where there is none. Nothing else changes.
pub proof fn law_members_chunk(
    cache: CacheView,
    message: JsonTree,
    shorter: JsonTree,
    guild: u64,
    fields: Map<Seq<char>, JsonTree>,
    members: Seq<JsonTree>,
)
    requires
        reads_as(cache, guild, fields),
        message.at("d"@).at("members"@) == JsonTree::Array(members),
        members.len() > 0 ==> shorter.at("d"@).at("members"@) == JsonTree::Array(
            members.drop_last(),
        ),
    ensures
        ({
            let after = cache.after_named("GUILD_MEMBERS_CHUNK"@, Some(message), Some(guild));
            let before = cache.after_named("GUILD_MEMBERS_CHUNK"@, Some(shorter), Some(guild));
            let listed = after.guilds[guild].tree.at("members"@);
            let listed_before = before.guilds[guild].tree.at("members"@);
            &&& listed is Array
            &&& after == with_fields(cache, guild, fields.insert("members"@, listed))
            &&& forall|items: Seq<JsonTree>| #[trigger]
                has_items(fields, "members"@, items) && members.len() == 0 ==> listed
                    == JsonTree::Array(items)
            &&& has_no_items(fields, "members"@) && members.len() == 0 ==> listed
                == JsonTree::Array(Seq::empty())
            &&& members.len() > 0 ==> {
                &&& listed_before is Array
                &&& member_user(members.last()) is None ==> listed == listed_before
                &&& member_user(members.last()) matches Some(user) ==> is_upsert(
                    listed_before->Array_0,
                    listed->Array_0,
                    |item: JsonTree| member_user(item),
                    user,
                    members.last(),
                )
            }
        }),
{
    lemma_event_names();
    if members.len() > 0 {
        let known = match JsonTree::Object(fields).at("members"@).as_array() {
            Some(items) => items,
            None => Seq::empty(),
        };
        let before = all_upserted(known, IdPlace::User, members.drop_last());
        if let Some(user) = member_user(members.last()) {
            lemma_upserted(
                before,
                IdPlace::User,
                |item: JsonTree| member_user(item),
                user,
                members.last(),
            );
        }
    }
}

// --- What happens where there is nothing to do ---

/// An event about a guild that is not known, or does not read, changes no guild,
/// unless it creates or deletes one. It changes what is known of channels only where a
/// channel or thread comes, goes or is listed, and then as if the guild read.
pub proof fn law_unread_guild_stays(
    cache: CacheView,
    name: Seq<char>,
    message: JsonTree,
    guild: u64,
)
    requires
        does_not_read(cache, guild),
        name != "GUILD_CREATE"@,
        name != "GUILD_DELETE"@,
    ensures
        ({
            let after = cache.after_named(name, Some(message), Some(guild));
            let data = message.at("d"@);
            let number = match data.at("id"@) {
                JsonTree::Text(id) => number_of(id),
                _ => None,
            };
            &&& after.guilds == cache.guilds
            &&& (name == "CHANNEL_CREATE"@ || name == "THREAD_CREATE"@) && number is Some
                ==> after.channels == cache.channels.insert(number->Some_0, guild)
            &&& (name == "CHANNEL_DELETE"@ || name == "THREAD_DELETE"@) && number is Some
                ==> after.channels == cache.channels.remove(number->Some_0)
            &&& name == "THREAD_LIST_SYNC"@ ==> forall|channel: u64|
                #![trigger after.channels.get(channel)]
                after.channels.get(channel) == if array_has_number(
                    data.at("threads"@),
                    channel,
                ) {
                    Some(guild)
                } else {
                    cache.channels.get(channel)
                }
            &&& name != "CHANNEL_CREATE"@ && name != "THREAD_CREATE"@ && name != "CHANNEL_DELETE"@
                && name != "THREAD_DELETE"@ && name != "THREAD_LIST_SYNC"@ ==> after == cache
        }),
{
    lemma_event_names();
    assert forall|channel: u64|
        #![trigger cache.after_named(name, Some(message), Some(guild)).channels.get(channel)]
        name == "THREAD_LIST_SYNC"@ implies cache.after_named(
        name,
        Some(message),
        Some(guild),
    ).channels.get(channel) == if array_has_number(message.at("d"@).at("threads"@), channel) {
        Some(guild)
    } else {
        cache.channels.get(channel)
    } by {
        lemma_names(message.at("d"@).at("threads"@), channel);
    }
}

/// An event whose data lack what it goes by changes nothing.
pub proof fn law_incomplete_data_change_nothing(
    cache: CacheView,
    name: Seq<char>,
    message: JsonTree,
    guild: u64,
)
    requires
        ({
            let data = message.at("d"@);
            let number = match data.at("id"@) {
                JsonTree::Text(id) => number_of(id),
                _ => None,
            };
            ||| (name == "CHANNEL_CREATE"@ || name == "THREAD_CREATE"@) && number is None
            ||| (name == "CHANNEL_DELETE"@ || name == "THREAD_DELETE"@) && number is None
            ||| (name == "CHANNEL_UPDATE"@ || name == "THREAD_UPDATE"@) && !(data.at("id"@) is Text)
            ||| name == "THREAD_LIST_SYNC"@ && !(data.at("threads"@) is Array)
            ||| (name == "ROLE_CREATE"@ || name == "ROLE_UPDATE"@) && !(data.at("role"@).at(
                "id"@,
            ) is Text)
            ||| name == "ROLE_DELETE"@ && !(data.at("role_id"@) is Text)
            ||| name == "GUILD_EMOJIS_UPDATE"@ && data.at("emojis"@) == JsonTree::Null
            ||| name == "GUILD_STICKERS_UPDATE"@ && data.at("stickers"@) == JsonTree::Null
            ||| name == "VOICE_STATE_UPDATE"@ && !(data.at("user_id"@) is Text)
            ||| (name == "GUILD_MEMBER_ADD"@ || name == "GUILD_MEMBER_UPDATE"@) && !(data.at(
                "user"@,
            ).at("id"@) is Text)
            ||| name == "GUILD_MEMBER_REMOVE"@ && !(data.at("user"@).at("id"@) is Text)
            ||| name == "GUILD_MEMBERS_CHUNK"@ && !(data.at("members"@) is Array)
        }),
    ensures
        cache.after_named(name, Some(message), Some(guild)) == cache,
{
    lemma_event_names();
    lemma_keys_differ();
}

/// GUILD_UPDATE with data that are no object leaves the members of the guild as they
/// are.
pub proof fn law_guild_update_needs_an_object(
    cache: CacheView,
    message: JsonTree,
    guild: u64,
    fields: Map<Seq<char>, JsonTree>,
)
    requires
        reads_as(cache, guild, fields),
        !(message.at("d"@) is Object),
    ensures
        cache.after_named("GUILD_UPDATE"@, Some(message), Some(guild)) == with_fields(
            cache,
            guild,
            fields,
        ),
{
    lemma_event_names();
}

/// The cache starts without guilds and channels.
pub proof fn law_empty_cache(guild: u64, channel: u64)
    ensures
        !CacheView::empty().guilds.contains_key(guild),
        CacheView::empty().channels.get(channel) is None,
{
}

} // verus!
