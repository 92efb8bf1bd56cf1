//! What holds of the channel index: the channels and threads that a guild lists
//! belong to it.
use crate::cache_laws::subject;
use crate::cache_model::{array_indexed, event_named, id_number, indexed, names, CacheView, Event};
use crate::guild::{
    channel_added, channel_removed, channel_updated, fields_merged, item_dropped, item_upserted,
    member_removed, member_upserted, members_upserted, voice_state_updated,
};
use crate::items::{dropped, is_first, law_dropped_items_are_gone, IdPlace};
use crate::json::{alike, JsonTree};
use crate::text::decimal;
use vstd::prelude::*;

verus! {

/// Which guild each channel and thread is of.
pub type Owner = spec_fn(u64) -> u64;

/// Whether an item of a guild's array, if it has a number, is written in digits
/// without leading zeros and is of the guild.
pub open spec fn is_own(item: JsonTree, guild: u64, owner: Owner) -> bool {
    id_number(item) matches Some(channel) ==> {
        &&& item.at("id"@).as_text() == Some(decimal(channel as nat))
        &&& owner(channel) == guild
    }
}

/// Whether all items are own.
pub open spec fn are_own(items: Seq<JsonTree>, guild: u64, owner: Owner) -> bool {
    forall|i: int| 0 <= i < items.len() ==> is_own(#[trigger] items[i], guild, owner)
}

/// Whether all items that have a number resolve to the guild.
pub open spec fn all_resolve(items: Seq<JsonTree>, guild: u64, channels: Map<u64, u64>) -> bool {
    forall|i: int|
        0 <= i < items.len() ==> (id_number(#[trigger] items[i]) matches Some(channel)
            ==> channels.get(channel) == Some(guild))
}

/// Whether the items of the array `key` are own and resolve to the guild.
pub open spec fn array_resolves(
    tree: JsonTree,
    key: Seq<char>,
    guild: u64,
    owner: Owner,
    channels: Map<u64, u64>,
) -> bool {
    tree.at(key) matches JsonTree::Array(items) ==> are_own(items, guild, owner) && all_resolve(
        items,
        guild,
        channels,
    )
}

/// Whether the channels and threads of a guild are own and resolve to it.
pub open spec fn guild_resolves(
    tree: JsonTree,
    guild: u64,
    owner: Owner,
    channels: Map<u64, u64>,
) -> bool {
    &&& array_resolves(tree, "channels"@, guild, owner, channels)
    &&& array_resolves(tree, "threads"@, guild, owner, channels)
}

/// Whether each channel and thread that a known guild lists is of the guild and
/// resolves to it.
pub open spec fn index_holds(cache: CacheView, owner: Owner) -> bool {
    forall|guild: u64| #[trigger]
        cache.guilds.contains_key(guild) ==> guild_resolves(
            cache.guilds[guild].tree,
            guild,
            owner,
            cache.channels,
        )
}

/// Whether an event keeps to the owners of the channels: it names channels with the
/// guild that they are of only, it brings none but by digits without leading zeros,
/// and an update of a guild brings neither channels nor threads.
pub open spec fn is_orderly(event: Event, guild: u64, data: JsonTree, owner: Owner) -> bool {
    match event {
        Event::GuildCreate => {
            &&& data.at("channels"@) matches JsonTree::Array(items) ==> are_own(items, guild, owner)
            &&& data.at("threads"@) matches JsonTree::Array(items) ==> are_own(items, guild, owner)
        },
        Event::GuildUpdate => data matches JsonTree::Object(fields) ==> !fields.contains_key(
            "channels"@,
        ) && !fields.contains_key("threads"@),
        Event::ChannelCreate | Event::ThreadCreate => is_own(data, guild, owner),
        Event::ChannelDelete => id_number(data) matches Some(channel) ==> owner(channel) == guild,
        Event::ThreadListSync => data.at("threads"@) matches JsonTree::Array(items) ==> are_own(
            items,
            guild,
            owner,
        ),
        _ => true,
    }
}

/// Whether a guild lists a channel or thread.
pub open spec fn lists_channel(tree: JsonTree, channel: u64) -> bool {
    ||| tree.at("channels"@) matches JsonTree::Array(items) && names(items, channel)
    ||| tree.at("threads"@) matches JsonTree::Array(items) && names(items, channel)
}

/// Whether an event can come to a cache: it is orderly, and a guild that loses a
/// channel that it lists reads.
pub open spec fn can_come(
    cache: CacheView,
    event: Event,
    message: Option<JsonTree>,
    guild: Option<u64>,
    owner: Owner,
) -> bool {
    match (subject(event, message, guild), message) {
        (Some(about), Some(message)) => {
            &&& is_orderly(event, about, message.at("d"@), owner)
            &&& event == Event::ChannelDelete ==> reads_if_listing(cache, about, message.at("d"@))
        },
        _ => true,
    }
}

/// Whether a guild reads, if it is known and lists the channel or thread of an event.
pub open spec fn reads_if_listing(cache: CacheView, guild: u64, data: JsonTree) -> bool {
    id_number(data) matches Some(channel) ==> cache.guilds.contains_key(guild) && lists_channel(
        cache.guilds[guild].tree,
        channel,
    ) ==> cache.guild_tree(guild) is Some
}

/// The names of the members that events change are all different.
proof fn lemma_names_differ()
    ensures
        "channels"@ != "threads"@,
        "roles"@ != "channels"@,
        "roles"@ != "threads"@,
        "emojis"@ != "channels"@,
        "emojis"@ != "threads"@,
        "stickers"@ != "channels"@,
        "stickers"@ != "threads"@,
        "members"@ != "channels"@,
        "members"@ != "threads"@,
        "voice_states"@ != "channels"@,
        "voice_states"@ != "threads"@,
{
    reveal_strlit("channels");
    reveal_strlit("threads");
    reveal_strlit("roles");
    reveal_strlit("emojis");
    reveal_strlit("stickers");
    reveal_strlit("members");
    reveal_strlit("voice_states");
    assert("channels"@[0] == 'c' && "threads"@[0] == 't');
    assert("roles"@[0] == 'r' && "emojis"@[0] == 'e' && "stickers"@[0] == 's');
    assert("members"@[0] == 'm' && "voice_states"@[0] == 'v');
}

/// Trees that are alike have the same ids.
proof fn lemma_alike_id(a: JsonTree, b: JsonTree)
    requires
        alike(a, b),
    ensures
        a.at("id"@).as_text() == b.at("id"@).as_text(),
        id_number(a) == id_number(b),
{
    if let (JsonTree::Object(x), JsonTree::Object(y)) = (a, b) {
        if x.contains_key("id"@) {
            assert(alike(x["id"@], y["id"@]));
        }
        assert(x.dom().contains("id"@) == y.dom().contains("id"@));
    }
}

/// What holds of an array holds of one that is alike.
proof fn lemma_alike_array(
    a: JsonTree,
    b: JsonTree,
    key: Seq<char>,
    guild: u64,
    owner: Owner,
    channels: Map<u64, u64>,
)
    requires
        alike(a, b),
        array_resolves(a, key, guild, owner, channels),
    ensures
        array_resolves(b, key, guild, owner, channels),
{
    if let (JsonTree::Object(x), JsonTree::Object(y)) = (a, b) {
        assert(x.dom().contains(key) == y.dom().contains(key));
        if let JsonTree::Array(after) = b.at(key) {
            assert(alike(x[key], y[key]));
            let before = x[key]->Array_0;
            assert forall|i: int| 0 <= i < after.len() implies is_own(
                #[trigger] after[i],
                guild,
                owner,
            ) && (id_number(after[i]) matches Some(channel) ==> channels.get(channel) == Some(
                guild,
            )) by {
                assert(alike(before[i], after[i]));
                lemma_alike_id(before[i], after[i]);
                assert(is_own(before[i], guild, owner));
            }
        }
    }
}

/// An array with an item dropped holds what it held.
proof fn lemma_dropped_resolve(
    items: Seq<JsonTree>,
    id: Seq<char>,
    guild: u64,
    owner: Owner,
    channels: Map<u64, u64>,
)
    requires
        are_own(items, guild, owner),
        all_resolve(items, guild, channels),
    ensures
        are_own(dropped(items, IdPlace::Own, id), guild, owner),
        all_resolve(dropped(items, IdPlace::Own, id), guild, channels),
{
    let left = dropped(items, IdPlace::Own, id);
    law_dropped_items_are_gone(items, IdPlace::Own, id);
    assert forall|i: int| 0 <= i < left.len() implies is_own(#[trigger] left[i], guild, owner) && (
    id_number(left[i]) matches Some(channel) ==> channels.get(channel) == Some(guild)) by {
        assert(left.contains(left[i]));
        let k = choose|k: int| 0 <= k < items.len() && items[k] == left[i];
        assert(is_own(items[k], guild, owner));
    }
}

/// What is left of an array after a channel is dropped resolves without the channel.
proof fn lemma_dropped_resolve_without(
    items: Seq<JsonTree>,
    number: u64,
    guild: u64,
    owner: Owner,
    channels: Map<u64, u64>,
)
    requires
        are_own(items, guild, owner),
        all_resolve(items, guild, channels),
    ensures
        are_own(dropped(items, IdPlace::Own, decimal(number as nat)), guild, owner),
        all_resolve(
            dropped(items, IdPlace::Own, decimal(number as nat)),
            guild,
            channels.remove(number),
        ),
{
    let id = decimal(number as nat);
    let left = dropped(items, IdPlace::Own, id);
    lemma_dropped_resolve(items, id, guild, owner, channels);
    law_dropped_items_are_gone(items, IdPlace::Own, id);
    assert forall|i: int| 0 <= i < left.len() implies (id_number(#[trigger] left[i]) matches Some(
        channel,
    ) ==> channels.remove(number).get(channel) == Some(guild)) by {
        assert(left.contains(left[i]));
        assert(IdPlace::Own.id_of(left[i]) != Some(id));
        assert(is_own(left[i], guild, owner));
    }
}

/// A guild with an item dropped from one of its arrays holds what it held.
proof fn lemma_channel_removed_resolves(
    tree: JsonTree,
    number: u64,
    guild: u64,
    owner: Owner,
    channels: Map<u64, u64>,
)
    requires
        guild_resolves(tree, guild, owner, channels),
    ensures
        guild_resolves(
            channel_removed(tree, decimal(number as nat)),
            guild,
            owner,
            channels.remove(number),
        ),
{
    lemma_names_differ();
    let id = decimal(number as nat);
    let once = item_dropped(tree, "channels"@, IdPlace::Own, id);
    let done = channel_removed(tree, id);
    assert(once.at("threads"@) == tree.at("threads"@));
    assert(done.at("channels"@) == once.at("channels"@));
    if let JsonTree::Array(items) = tree.at("channels"@) {
        lemma_dropped_resolve_without(items, number, guild, owner, channels);
    }
    if let JsonTree::Array(items) = tree.at("threads"@) {
        lemma_dropped_resolve_without(items, number, guild, owner, channels);
    }
}

/// A guild resolves without a channel that it does not list.
proof fn lemma_unlisted_channel_resolves(
    tree: JsonTree,
    number: u64,
    guild: u64,
    owner: Owner,
    channels: Map<u64, u64>,
)
    requires
        guild_resolves(tree, guild, owner, channels),
        !lists_channel(tree, number),
    ensures
        guild_resolves(tree, guild, owner, channels.remove(number)),
{
    assert forall|items: Seq<JsonTree>|
        #![trigger names(items, number)]
        all_resolve(items, guild, channels) && !names(items, number) implies all_resolve(
        items,
        guild,
        channels.remove(number),
    ) by {
        assert forall|i: int| 0 <= i < items.len() implies (id_number(
            #[trigger] items[i],
        ) matches Some(channel) ==> channels.remove(number).get(channel) == Some(guild)) by {
            if id_number(items[i]) == Some(number) {
                assert(names(items, number));
            }
        }
    }
    if let JsonTree::Array(items) = tree.at("channels"@) {
        assert(!names(items, number));
    }
    if let JsonTree::Array(items) = tree.at("threads"@) {
        assert(!names(items, number));
    }
}

/// A guild with a channel added holds what it held, if the channel does.
proof fn lemma_channel_added_resolves(
    tree: JsonTree,
    key: Seq<char>,
    id: Seq<char>,
    channel: JsonTree,
    guild: u64,
    owner: Owner,
    channels: Map<u64, u64>,
)
    requires
        key == "channels"@ || key == "threads"@,
        guild_resolves(tree, guild, owner, channels),
        is_own(channel, guild, owner),
        id_number(channel) matches Some(number) ==> channels.get(number) == Some(guild),
    ensures
        guild_resolves(channel_added(tree, key, id, channel), guild, owner, channels),
{
    lemma_names_differ();
    if let JsonTree::Array(items) = tree.at(key) {
        lemma_dropped_resolve(items, id, guild, owner, channels);
        let others = dropped(items, IdPlace::Own, id);
        let all = others.push(channel);
        assert forall|i: int| 0 <= i < all.len() implies is_own(#[trigger] all[i], guild, owner)
            && (id_number(all[i]) matches Some(number) ==> channels.get(number) == Some(
            guild,
        )) by {
            if i < others.len() {
                assert(all[i] == others[i]);
                assert(is_own(others[i], guild, owner));
            }
        }
    }
}

/// A guild with a channel updated holds what it held: the update has the id of the
/// channel that it replaces.
proof fn lemma_channel_updated_resolves(
    tree: JsonTree,
    id: Seq<char>,
    channel: JsonTree,
    guild: u64,
    owner: Owner,
    channels: Map<u64, u64>,
)
    requires
        guild_resolves(tree, guild, owner, channels),
        channel.at("id"@).as_text() == Some(id),
    ensures
        guild_resolves(channel_updated(tree, id, channel), guild, owner, channels),
{
    lemma_names_differ();
    assert forall|items: Seq<JsonTree>, k: int|
        are_own(items, guild, owner) && all_resolve(items, guild, channels) && #[trigger] is_first(
            items,
            IdPlace::Own,
            id,
            k,
        ) implies are_own(items.update(k, channel), guild, owner) && all_resolve(
        items.update(k, channel),
        guild,
        channels,
    ) by {
        let all = items.update(k, channel);
        assert(is_own(items[k], guild, owner));
        assert(id_number(items[k]) == id_number(channel));
        assert forall|i: int| 0 <= i < all.len() implies is_own(#[trigger] all[i], guild, owner)
            && (id_number(all[i]) matches Some(number) ==> channels.get(number) == Some(
            guild,
        )) by {
            if i != k {
                assert(all[i] == items[i]);
                assert(is_own(items[i], guild, owner));
            }
        }
    }
    if let JsonTree::Array(items) = tree.at("channels"@) {
        if exists|k: int| is_first(items, IdPlace::Own, id, k) {
            let k = choose|k: int| is_first(items, IdPlace::Own, id, k);
            assert(is_first(items, IdPlace::Own, id, k));
        }
    }
    if let JsonTree::Array(items) = tree.at("threads"@) {
        if exists|k: int| is_first(items, IdPlace::Own, id, k) {
            let k = choose|k: int| is_first(items, IdPlace::Own, id, k);
            assert(is_first(items, IdPlace::Own, id, k));
        }
    }
}

/// A guild whose channels and threads stay as they are holds what it held.
proof fn lemma_same_arrays_resolve(
    before: JsonTree,
    after: JsonTree,
    guild: u64,
    owner: Owner,
    channels: Map<u64, u64>,
)
    requires
        guild_resolves(before, guild, owner, channels),
        after.at("channels"@) == before.at("channels"@),
        after.at("threads"@) == before.at("threads"@),
    ensures
        guild_resolves(after, guild, owner, channels),
{
}

/// Whether an index still has what the owners of channels need of it.
spec fn keeps_owned(before: Map<u64, u64>, after: Map<u64, u64>, guild: u64, owner: Owner) -> bool {
    forall|channel: u64|
        owner(channel) == guild && before.get(channel) == Some(guild) ==> #[trigger] after.get(
            channel,
        ) == Some(guild)
}

/// A guild resolves by an index that still has what it needs.
proof fn lemma_kept_index_resolves(
    tree: JsonTree,
    guild: u64,
    owner: Owner,
    before: Map<u64, u64>,
    after: Map<u64, u64>,
)
    requires
        guild_resolves(tree, guild, owner, before),
        keeps_owned(before, after, guild, owner),
    ensures
        guild_resolves(tree, guild, owner, after),
{
    if let JsonTree::Array(items) = tree.at("channels"@) {
        assert forall|i: int| 0 <= i < items.len() implies (id_number(
            #[trigger] items[i],
        ) matches Some(channel) ==> after.get(channel) == Some(guild)) by {
            assert(is_own(items[i], guild, owner));
        }
    }
    if let JsonTree::Array(items) = tree.at("threads"@) {
        assert forall|i: int| 0 <= i < items.len() implies (id_number(
            #[trigger] items[i],
        ) matches Some(channel) ==> after.get(channel) == Some(guild)) by {
            assert(is_own(items[i], guild, owner));
        }
    }
}

/// An index with own items added still has what every guild needs of it, and the
/// items resolve.
proof fn lemma_indexed_keeps_owned(
    channels: Map<u64, u64>,
    items: Seq<JsonTree>,
    guild: u64,
    owner: Owner,
)
    requires
        are_own(items, guild, owner),
    ensures
        all_resolve(items, guild, indexed(channels, items, guild)),
        forall|other: u64| keeps_owned(channels, indexed(channels, items, guild), other, owner),
{
    let more = indexed(channels, items, guild);
    assert forall|i: int| 0 <= i < items.len() implies (id_number(#[trigger] items[i]) matches Some(
        channel,
    ) ==> more.get(channel) == Some(guild)) by {
        if let Some(channel) = id_number(items[i]) {
            assert(names(items, channel));
        }
    }
    assert forall|other: u64| keeps_owned(channels, more, other, owner) by {
        assert forall|channel: u64|
            owner(channel) == other && channels.get(channel) == Some(
                other,
            ) implies #[trigger] more.get(channel) == Some(other) by {
            if names(items, channel) {
                let i = choose|i: int|
                    0 <= i < items.len() && id_number(#[trigger] items[i]) == Some(channel);
                assert(is_own(items[i], guild, owner));
            }
        }
    }
}

/// The index holds after an edit of one guild, if it holds of the edited guild and
/// still has what the others need of it.
proof fn lemma_edit_keeps_index(
    cache: CacheView,
    channels: Map<u64, u64>,
    guild: u64,
    edit: spec_fn(JsonTree) -> JsonTree,
    owner: Owner,
)
    requires
        index_holds(cache, owner),
        forall|other: u64|
            other != guild ==> keeps_owned(cache.channels, channels, other, owner),
        match cache.guild_tree(guild) {
            Some(read) => guild_resolves(edit(read), guild, owner, channels),
            None => cache.guilds.contains_key(guild) ==> guild_resolves(
                cache.guilds[guild].tree,
                guild,
                owner,
                channels,
            ),
        },
    ensures
        index_holds((CacheView { guilds: cache.guilds, channels }).edited(guild, edit), owner),
{
    let moved = CacheView { guilds: cache.guilds, channels };
    let after = moved.edited(guild, edit);
    assert(moved.guild_tree(guild) == cache.guild_tree(guild));
    assert forall|other: u64| #[trigger] after.guilds.contains_key(other) implies guild_resolves(
        after.guilds[other].tree,
        other,
        owner,
        after.channels,
    ) by {
        if other != guild {
            assert(cache.guilds.contains_key(other));
            lemma_kept_index_resolves(
                cache.guilds[other].tree,
                other,
                owner,
                cache.channels,
                channels,
            );
        }
    }
}

/// What a guild reads as holds what the guild holds.
proof fn lemma_read_guild_resolves(cache: CacheView, guild: u64, owner: Owner)
    requires
        cache.sound(),
        index_holds(cache, owner),
        cache.guild_tree(guild) is Some,
    ensures
        guild_resolves(cache.guild_tree(guild)->Some_0, guild, owner, cache.channels),
{
    let tree = cache.guilds[guild].tree;
    let read = cache.guild_tree(guild)->Some_0;
    assert(cache.guilds.contains_key(guild));
    lemma_alike_array(tree, read, "channels"@, guild, owner, cache.channels);
    lemma_alike_array(tree, read, "threads"@, guild, owner, cache.channels);
}

/// An edit that leaves the channels and threads of a guild as they are keeps the
/// index.
proof fn lemma_other_edit_keeps_index(
    cache: CacheView,
    guild: u64,
    edit: spec_fn(JsonTree) -> JsonTree,
    owner: Owner,
)
    requires
        cache.sound(),
        index_holds(cache, owner),
        cache.guild_tree(guild) matches Some(read) ==> edit(read).at("channels"@) == read.at(
            "channels"@,
        ) && edit(read).at("threads"@) == read.at("threads"@),
    ensures
        index_holds(cache.edited(guild, edit), owner),
{
    if let Some(read) = cache.guild_tree(guild) {
        lemma_read_guild_resolves(cache, guild, owner);
        lemma_same_arrays_resolve(read, edit(read), guild, owner, cache.channels);
    }
    lemma_edit_keeps_index(cache, cache.channels, guild, edit, owner);
    assert(cache == (CacheView { guilds: cache.guilds, channels: cache.channels }));
}

/// The index holds after a guild is created.
proof fn lemma_guild_created_keeps_index(
    cache: CacheView,
    guild: u64,
    data: JsonTree,
    owner: Owner,
)
    requires
        index_holds(cache, owner),
        id_number(data) == Some(guild),
        is_orderly(Event::GuildCreate, guild, data, owner),
    ensures
        index_holds(cache.guild_created(data), owner),
{
    let after = cache.guild_created(data);
    let once = array_indexed(cache.channels, data, "channels"@, guild);
    if let JsonTree::Array(items) = data.at("channels"@) {
        lemma_indexed_keeps_owned(cache.channels, items, guild, owner);
    }
    if let JsonTree::Array(items) = data.at("threads"@) {
        lemma_indexed_keeps_owned(once, items, guild, owner);
    }
    assert(forall|other: u64| keeps_owned(cache.channels, once, other, owner));
    assert(forall|other: u64| keeps_owned(once, after.channels, other, owner));
    assert forall|other: u64| #[trigger] after.guilds.contains_key(other) implies guild_resolves(
        after.guilds[other].tree,
        other,
        owner,
        after.channels,
    ) by {
        if other != guild {
            assert(cache.guilds.contains_key(other));
            let tree = cache.guilds[other].tree;
            lemma_kept_index_resolves(tree, other, owner, cache.channels, once);
            lemma_kept_index_resolves(tree, other, owner, once, after.channels);
        } else {
            if let JsonTree::Array(items) = data.at("channels"@) {
                assert forall|i: int| 0 <= i < items.len() implies (id_number(
                    #[trigger] items[i],
                ) matches Some(channel) ==> after.channels.get(channel) == Some(guild)) by {
                    assert(is_own(items[i], guild, owner));
                }
            }
        }
    }
}

/// The index holds after an event about a guild.
proof fn lemma_change_keeps_index(
    cache: CacheView,
    event: Event,
    guild: u64,
    data: JsonTree,
    owner: Owner,
)
    requires
        cache.sound(),
        index_holds(cache, owner),
        is_orderly(event, guild, data, owner),
        event == Event::ChannelDelete ==> reads_if_listing(cache, guild, data),
    ensures
        index_holds(cache.changed(event, guild, data), owner),
{
    lemma_names_differ();
    if cache.guild_tree(guild) is Some {
        lemma_read_guild_resolves(cache, guild, owner);
    }
    let read = cache.guild_tree(guild)->Some_0;
    match event {
        Event::GuildUpdate => {
            lemma_other_edit_keeps_index(
                cache,
                guild,
                |t: JsonTree| fields_merged(t, data),
                owner,
            );
        },
        Event::ChannelCreate | Event::ThreadCreate => {
            let key = if event == Event::ChannelCreate {
                "channels"@
            } else {
                "threads"@
            };
            if let (Some(id), Some(number)) = (data.at("id"@).as_text(), id_number(data)) {
                let channels = cache.channels.insert(number, guild);
                assert(forall|other: u64| keeps_owned(cache.channels, channels, other, owner));
                if cache.guild_tree(guild) is Some {
                    lemma_kept_index_resolves(read, guild, owner, cache.channels, channels);
                    lemma_channel_added_resolves(read, key, id, data, guild, owner, channels);
                } else if cache.guilds.contains_key(guild) {
                    lemma_kept_index_resolves(
                        cache.guilds[guild].tree,
                        guild,
                        owner,
                        cache.channels,
                        channels,
                    );
                }
                lemma_edit_keeps_index(
                    cache,
                    channels,
                    guild,
                    |t: JsonTree| channel_added(t, key, id, data),
                    owner,
                );
            }
        },
        Event::ChannelUpdate => {
            if let Some(id) = data.at("id"@).as_text() {
                if cache.guild_tree(guild) is Some {
                    lemma_channel_updated_resolves(read, id, data, guild, owner, cache.channels);
                }
                lemma_edit_keeps_index(
                    cache,
                    cache.channels,
                    guild,
                    |t: JsonTree| channel_updated(t, id, data),
                    owner,
                );
                assert(cache == (CacheView { guilds: cache.guilds, channels: cache.channels }));
            }
        },
        Event::ChannelDelete => {
            if let Some(number) = id_number(data) {
                let channels = cache.channels.remove(number);
                if cache.guild_tree(guild) is Some {
                    lemma_channel_removed_resolves(read, number, guild, owner, cache.channels);
                } else if cache.guilds.contains_key(guild) {
                    lemma_unlisted_channel_resolves(
                        cache.guilds[guild].tree,
                        number,
                        guild,
                        owner,
                        cache.channels,
                    );
                }
                lemma_edit_keeps_index(
                    cache,
                    channels,
                    guild,
                    |t: JsonTree| channel_removed(t, decimal(number as nat)),
                    owner,
                );
            }
        },
        Event::ThreadListSync => {
            if let Some(threads) = data.at("threads"@).as_array() {
                let channels = indexed(cache.channels, threads, guild);
                lemma_indexed_keeps_owned(cache.channels, threads, guild, owner);
                if cache.guild_tree(guild) is Some {
                    lemma_kept_index_resolves(read, guild, owner, cache.channels, channels);
                } else if cache.guilds.contains_key(guild) {
                    lemma_kept_index_resolves(
                        cache.guilds[guild].tree,
                        guild,
                        owner,
                        cache.channels,
                        channels,
                    );
                }
                lemma_edit_keeps_index(
                    cache,
                    channels,
                    guild,
                    |t: JsonTree| t.with("threads"@, JsonTree::Array(threads)),
                    owner,
                );
            }
        },
        Event::RoleUpsert => {
            if let Some(id) = data.at("role"@).at("id"@).as_text() {
                lemma_other_edit_keeps_index(
                    cache,
                    guild,
                    |t: JsonTree|
                        item_upserted(t, "roles"@, IdPlace::Own, id, data.at("role"@)),
                    owner,
                );
            }
        },
        Event::RoleDelete => {
            if let Some(id) = data.at("role_id"@).as_text() {
                lemma_other_edit_keeps_index(
                    cache,
                    guild,
                    |t: JsonTree| item_dropped(t, "roles"@, IdPlace::Own, id),
                    owner,
                );
            }
        },
        Event::EmojisUpdate => {
            lemma_other_edit_keeps_index(
                cache,
                guild,
                |t: JsonTree| t.with("emojis"@, data.at("emojis"@)),
                owner,
            );
        },
        Event::StickersUpdate => {
            lemma_other_edit_keeps_index(
                cache,
                guild,
                |t: JsonTree| t.with("stickers"@, data.at("stickers"@)),
                owner,
            );
        },
        Event::VoiceStateUpdate => {
            if let Some(user) = data.at("user_id"@).as_text() {
                lemma_other_edit_keeps_index(
                    cache,
                    guild,
                    |t: JsonTree| voice_state_updated(t, user, data.without("guild_id"@)),
                    owner,
                );
            }
        },
        Event::MemberUpsert => {
            if let Some(user) = IdPlace::User.id_of(data.without("guild_id"@)) {
                lemma_other_edit_keeps_index(
                    cache,
                    guild,
                    |t: JsonTree| member_upserted(t, user, data.without("guild_id"@)),
                    owner,
                );
            }
        },
        Event::MemberRemove => {
            if let Some(user) = IdPlace::User.id_of(data) {
                lemma_other_edit_keeps_index(
                    cache,
                    guild,
                    |t: JsonTree| member_removed(t, user),
                    owner,
                );
            }
        },
        Event::MembersChunk => {
            if let Some(members) = data.at("members"@).as_array() {
                lemma_other_edit_keeps_index(
                    cache,
                    guild,
                    |t: JsonTree| members_upserted(t, members),
                    owner,
                );
            }
        },
        Event::GuildCreate | Event::GuildDelete => {},
    }
}

/// The index holds after a guild is deleted.
proof fn lemma_guild_deleted_keeps_index(
    cache: CacheView,
    guild: u64,
    unavailable: bool,
    owner: Owner,
)
    requires
        index_holds(cache, owner),
    ensures
        index_holds(cache.guild_deleted(guild, unavailable), owner),
{
    let after = cache.guild_deleted(guild, unavailable);
    assert forall|other: u64| #[trigger] after.guilds.contains_key(other) implies guild_resolves(
        after.guilds[other].tree,
        other,
        owner,
        after.channels,
    ) by {
        assert(cache.guilds.contains_key(other));
        if !unavailable {
            lemma_kept_index_resolves(
                cache.guilds[other].tree,
                other,
                owner,
                cache.channels,
                after.channels,
            );
        }
    }
}

/// An event keeps the index: if each channel and thread that a known guild lists
/// resolves to the guild, so it does after any event that can come.
pub proof fn law_event_keeps_index(
    cache: CacheView,
    event: Event,
    message: Option<JsonTree>,
    guild: Option<u64>,
    owner: Owner,
)
    requires
        cache.sound(),
        index_holds(cache, owner),
        can_come(cache, event, message, guild, owner),
    ensures
        index_holds(cache.after(event, message, guild), owner),
{
    match (event, guild, message) {
        (Event::GuildCreate, _, Some(message)) => {
            if let Some(created) = id_number(message.at("d"@)) {
                lemma_guild_created_keeps_index(cache, created, message.at("d"@), owner);
            }
        },
        (Event::GuildDelete, Some(guild), Some(message)) => {
            lemma_guild_deleted_keeps_index(
                cache,
                guild,
                message.at("d"@).at("unavailable"@).is_true(),
                owner,
            );
        },
        (Event::GuildDelete, Some(guild), None) => {
            lemma_guild_deleted_keeps_index(cache, guild, false, owner);
        },
        (_, Some(guild), Some(message)) => {
            lemma_change_keeps_index(cache, event, guild, message.at("d"@), owner);
        },
        _ => {},
    }
}

/// A dispatch: the name of its event, what its payload reads as, and its guild.
pub struct Dispatch {
    pub name: Seq<char>,
    pub message: Option<JsonTree>,
    pub guild: Option<u64>,
}

/// The cache after some dispatches.
pub open spec fn after_all(cache: CacheView, dispatches: Seq<Dispatch>) -> CacheView
    decreases dispatches.len(),
{
    if dispatches.len() == 0 {
        cache
    } else {
        let last = dispatches.last();
        after_all(cache, dispatches.drop_last()).after_named(last.name, last.message, last.guild)
    }
}

/// Whether the dispatches can come one after the other to an empty cache, which is
/// sound before each of them.
pub open spec fn is_history(dispatches: Seq<Dispatch>, owner: Owner) -> bool
    decreases dispatches.len(),
{
    dispatches.len() > 0 ==> {
        let before = dispatches.drop_last();
        let cache = after_all(CacheView::empty(), before);
        let last = dispatches.last();
        &&& is_history(before, owner)
        &&& cache.sound()
        &&& event_named(last.name) matches Some(event) ==> can_come(
            cache,
            event,
            last.message,
            last.guild,
            owner,
        )
    }
}

/// After every history each channel and thread that a known guild lists resolves to
/// the guild. (Each cache that `process_event` leaves is sound.)
pub proof fn law_listed_channels_resolve(
    dispatches: Seq<Dispatch>,
    owner: Owner,
    guild: u64,
    key: Seq<char>,
    i: int,
    channel: u64,
)
    requires
        is_history(dispatches, owner),
        after_all(CacheView::empty(), dispatches).guilds.contains_key(guild),
        key == "channels"@ || key == "threads"@,
        after_all(CacheView::empty(), dispatches).guilds[guild].tree.at(key) is Array,
        0 <= i < after_all(CacheView::empty(), dispatches).guilds[guild].tree.at(
            key,
        )->Array_0.len(),
        id_number(
            after_all(CacheView::empty(), dispatches).guilds[guild].tree.at(key)->Array_0[i],
        ) == Some(channel),
    ensures
        after_all(CacheView::empty(), dispatches).channels.get(channel) == Some(guild),
{
    lemma_history_keeps_index(dispatches, owner);
}

/// The index holds after every history.
proof fn lemma_history_keeps_index(dispatches: Seq<Dispatch>, owner: Owner)
    requires
        is_history(dispatches, owner),
    ensures
        index_holds(after_all(CacheView::empty(), dispatches), owner),
    decreases dispatches.len(),
{
    if dispatches.len() > 0 {
        let before = dispatches.drop_last();
        let last = dispatches.last();
        lemma_history_keeps_index(before, owner);
        if let Some(event) = event_named(last.name) {
            law_event_keeps_index(
                after_all(CacheView::empty(), before),
                event,
                last.message,
                last.guild,
                owner,
            );
        }
    }
}

} // verus!
