//! What events keep plain: guilds whose text reads back exactly.
use crate::cache_laws::law_stored_guild_reads_back;
use crate::cache_model::{id_number, indexed, CacheView, Event};
use crate::codec::{is_plain, MAX_NESTING};
use crate::guild::{
    channel_added, channel_removed, channel_updated, fields_merged, item_dropped, item_upserted,
    known_member, member_kept, member_refreshed, member_removed, member_upserted, members_upserted,
    voice_state_updated,
};
use crate::items::{all_upserted, dropped, is_first, is_last, upserted, IdPlace};
use crate::json::{nests_within, real_free, JsonTree};
use crate::text::decimal;
use vstd::prelude::*;

verus! {

/// Whether a tree has no real numbers and nests at most `depth` deep.
pub open spec fn fits(tree: JsonTree, depth: nat) -> bool {
    real_free(tree) && nests_within(tree, depth)
}

/// Whether all items fit.
pub open spec fn all_fit(items: Seq<JsonTree>, depth: nat) -> bool {
    forall|i: int| 0 <= i < items.len() ==> fits(#[trigger] items[i], depth)
}

/// What fits, fits where there is more room.
proof fn lemma_fits_deeper(tree: JsonTree, depth: nat, deeper: nat)
    requires
        fits(tree, depth),
        depth <= deeper,
    ensures
        fits(tree, deeper),
    decreases tree,
{
    match tree {
        JsonTree::Array(items) => {
            assert forall|i: int| 0 <= i < items.len() implies nests_within(
                #[trigger] items[i],
                (deeper - 1) as nat,
            ) by {
                assert(decreases_to!(tree => tree->Array_0));
                lemma_fits_deeper(items[i], (depth - 1) as nat, (deeper - 1) as nat);
            }
        },
        JsonTree::Object(map) => {
            assert forall|k: Seq<char>| map.contains_key(k) implies nests_within(
                #[trigger] map[k],
                (deeper - 1) as nat,
            ) by {
                lemma_fits_deeper(map[k], (depth - 1) as nat, (deeper - 1) as nat);
            }
        },
        _ => {},
    }
}

/// The items of an array fit exactly where the array does with one level more.
proof fn lemma_array_fits(items: Seq<JsonTree>, depth: nat)
    ensures
        fits(JsonTree::Array(items), depth + 1) == all_fit(items, depth),
{
    let tree = JsonTree::Array(items);
    if fits(tree, depth + 1) {
        assert forall|i: int| 0 <= i < items.len() implies fits(#[trigger] items[i], depth) by {
            assert(real_free(tree) && nests_within(tree, depth + 1));
            assert(tree->Array_0[i] == items[i]);
        }
    }
    if all_fit(items, depth) {
        assert forall|i: int| 0 <= i < items.len() implies real_free(#[trigger] items[i]) by {
            assert(fits(items[i], depth));
        }
        assert forall|i: int| 0 <= i < items.len() implies nests_within(
            #[trigger] items[i],
            depth,
        ) by {
            assert(fits(items[i], depth));
        }
    }
}

/// The member of an object fits with one level less.
proof fn lemma_member_fits(tree: JsonTree, key: Seq<char>, depth: nat)
    requires
        fits(tree, depth + 1),
    ensures
        fits(tree.at(key), depth),
{
}

/// An object with a member set fits where the object and the member do.
proof fn lemma_with_fits(tree: JsonTree, key: Seq<char>, value: JsonTree, depth: nat)
    requires
        fits(tree, depth + 1),
        fits(value, depth),
    ensures
        fits(tree.with(key, value), depth + 1),
{
    if let JsonTree::Object(map) = tree {
        let more = map.insert(key, value);
        assert forall|k: Seq<char>| more.contains_key(k) implies real_free(#[trigger] more[k]) by {
            if k != key {
                assert(more[k] == map[k]);
            }
        }
        assert forall|k: Seq<char>| more.contains_key(k) implies nests_within(
            #[trigger] more[k],
            depth,
        ) by {
            if k != key {
                assert(more[k] == map[k]);
            }
        }
    }
}

/// An object without a member fits where the object does.
proof fn lemma_without_fits(tree: JsonTree, key: Seq<char>, depth: nat)
    requires
        fits(tree, depth),
    ensures
        fits(tree.without(key), depth),
{
    if let JsonTree::Object(map) = tree {
        let less = map.remove(key);
        assert forall|k: Seq<char>| less.contains_key(k) implies real_free(#[trigger] less[k]) by {
            assert(less[k] == map[k]);
        }
        assert forall|k: Seq<char>| less.contains_key(k) implies nests_within(
            #[trigger] less[k],
            (depth - 1) as nat,
        ) by {
            assert(less[k] == map[k]);
        }
    }
}

/// What a drop leaves fits.
proof fn lemma_dropped_fits(items: Seq<JsonTree>, place: IdPlace, id: Seq<char>, depth: nat)
    requires
        all_fit(items, depth),
    ensures
        all_fit(dropped(items, place, id), depth),
{
    let left = dropped(items, place, id);
    assert forall|i: int| 0 <= i < left.len() implies fits(#[trigger] left[i], depth) by {
        assert(left.contains(left[i]));
        items.lemma_filter_contains_rev(place.differs(id), left[i]);
        let k = choose|k: int| 0 <= k < items.len() && items[k] == left[i];
        assert(fits(items[k], depth));
    }
}

/// What an upsert leaves fits.
proof fn lemma_upserted_fits(
    items: Seq<JsonTree>,
    place: IdPlace,
    id: Seq<char>,
    item: JsonTree,
    depth: nat,
)
    requires
        all_fit(items, depth),
        fits(item, depth),
    ensures
        all_fit(upserted(items, place, id, item), depth),
{
    let after = upserted(items, place, id, item);
    if exists|i: int| #[trigger] is_first(items, place, id, i) {
        let k = choose|k: int| is_first(items, place, id, k);
        assert(is_first(items, place, id, k));
    }
    assert forall|i: int| 0 <= i < after.len() implies fits(#[trigger] after[i], depth) by {
        if i < items.len() && after[i] != item {
            assert(after[i] == items[i]);
        }
    }
}

/// What several upserts leave fits.
proof fn lemma_all_upserted_fits(
    items: Seq<JsonTree>,
    place: IdPlace,
    updates: Seq<JsonTree>,
    depth: nat,
)
    requires
        all_fit(items, depth),
        all_fit(updates, depth),
    ensures
        all_fit(all_upserted(items, place, updates), depth),
    decreases updates.len(),
{
    if updates.len() > 0 {
        let rest = updates.drop_last();
        assert forall|i: int| 0 <= i < rest.len() implies fits(#[trigger] rest[i], depth) by {
            assert(rest[i] == updates[i]);
        }
        lemma_all_upserted_fits(items, place, rest, depth);
        let last = updates[updates.len() - 1];
        assert(fits(last, depth));
        if let Some(id) = place.id_of(last) {
            lemma_upserted_fits(all_upserted(items, place, rest), place, id, last, depth);
        }
    }
}

/// A guild with an array replaced fits where the items do.
proof fn lemma_with_array_fits(guild: JsonTree, key: Seq<char>, items: Seq<JsonTree>, depth: nat)
    requires
        fits(guild, depth + 2),
        all_fit(items, depth),
    ensures
        fits(guild.with(key, JsonTree::Array(items)), depth + 2),
{
    lemma_array_fits(items, depth);
    lemma_with_fits(guild, key, JsonTree::Array(items), depth + 1);
}

/// The items of an array of the guild fit.
proof fn lemma_items_fit(guild: JsonTree, key: Seq<char>, depth: nat)
    requires
        fits(guild, depth + 2),
        guild.at(key) is Array,
    ensures
        all_fit(guild.at(key)->Array_0, depth),
{
    lemma_member_fits(guild, key, depth + 1);
    lemma_array_fits(guild.at(key)->Array_0, depth);
}

/// A guild with items dropped fits.
proof fn lemma_item_dropped_fits(
    guild: JsonTree,
    key: Seq<char>,
    place: IdPlace,
    id: Seq<char>,
    depth: nat,
)
    requires
        fits(guild, depth + 2),
    ensures
        fits(item_dropped(guild, key, place, id), depth + 2),
{
    if let JsonTree::Array(items) = guild.at(key) {
        lemma_items_fit(guild, key, depth);
        lemma_dropped_fits(items, place, id, depth);
        lemma_with_array_fits(guild, key, dropped(items, place, id), depth);
    }
}

/// A guild with an item upserted fits.
proof fn lemma_item_upserted_fits(
    guild: JsonTree,
    key: Seq<char>,
    place: IdPlace,
    id: Seq<char>,
    item: JsonTree,
    depth: nat,
)
    requires
        fits(guild, depth + 2),
        fits(item, depth),
    ensures
        fits(item_upserted(guild, key, place, id, item), depth + 2),
{
    if let JsonTree::Array(items) = guild.at(key) {
        lemma_items_fit(guild, key, depth);
        lemma_upserted_fits(items, place, id, item, depth);
        lemma_with_array_fits(guild, key, upserted(items, place, id, item), depth);
    }
}

/// A guild with an update merged in fits.
proof fn lemma_fields_merged_fits(guild: JsonTree, update: JsonTree, depth: nat)
    requires
        fits(guild, depth),
        fits(update, depth),
    ensures
        fits(fields_merged(guild, update), depth),
{
    if let (JsonTree::Object(stored), JsonTree::Object(changes)) = (guild, update) {
        let all = stored.union_prefer_right(changes);
        assert forall|k: Seq<char>| all.contains_key(k) implies real_free(#[trigger] all[k])
            && nests_within(all[k], (depth - 1) as nat) by {
            if changes.contains_key(k) {
                assert(all[k] == changes[k]);
            } else {
                assert(all[k] == stored[k]);
            }
        }
    }
}

/// A guild with a channel added fits.
proof fn lemma_channel_added_fits(
    guild: JsonTree,
    key: Seq<char>,
    id: Seq<char>,
    channel: JsonTree,
    depth: nat,
)
    requires
        fits(guild, depth + 2),
        fits(channel, depth),
    ensures
        fits(channel_added(guild, key, id, channel), depth + 2),
{
    if let JsonTree::Array(items) = guild.at(key) {
        lemma_items_fit(guild, key, depth);
        lemma_dropped_fits(items, IdPlace::Own, id, depth);
        let others = dropped(items, IdPlace::Own, id);
        assert(all_fit(others.push(channel), depth)) by {
            assert forall|i: int| 0 <= i < others.len() + 1 implies fits(
                #[trigger] others.push(channel)[i],
                depth,
            ) by {
                if i < others.len() {
                    assert(others.push(channel)[i] == others[i]);
                }
            }
        }
        lemma_with_array_fits(guild, key, others.push(channel), depth);
    }
}

/// A guild with a channel updated fits.
proof fn lemma_channel_updated_fits(guild: JsonTree, id: Seq<char>, channel: JsonTree, depth: nat)
    requires
        fits(guild, depth + 2),
        fits(channel, depth),
    ensures
        fits(channel_updated(guild, id, channel), depth + 2),
{
    lemma_item_upserted_fits(guild, "channels"@, IdPlace::Own, id, channel, depth);
    lemma_item_upserted_fits(guild, "threads"@, IdPlace::Own, id, channel, depth);
}

/// A guild with a voice state updated fits.
proof fn lemma_voice_state_updated_fits(
    guild: JsonTree,
    user: Seq<char>,
    state: JsonTree,
    depth: nat,
)
    requires
        fits(guild, depth + 3),
        fits(state, depth),
    ensures
        fits(voice_state_updated(guild, user, state), depth + 3),
{
    lemma_fits_deeper(state, depth, depth + 1);
    if let JsonTree::Array(states) = guild.at("voice_states"@) {
        lemma_items_fit(guild, "voice_states"@, depth + 1);
        lemma_dropped_fits(states, IdPlace::UserId, user, depth + 1);
        let others = dropped(states, IdPlace::UserId, user);
        let known = known_member(states, user);
        assert(fits(known, depth)) by {
            if exists|i: int| is_last(states, IdPlace::UserId, user, i) {
                let i = choose|i: int| is_last(states, IdPlace::UserId, user, i);
                assert(is_last(states, IdPlace::UserId, user, i));
                assert(fits(states[i], depth + 1));
                lemma_member_fits(states[i], "member"@, depth);
            }
        }
        lemma_with_fits(state, "member"@, known, depth);
        let kept = member_kept(state, known);
        assert(all_fit(others.push(kept), depth + 1)) by {
            assert forall|i: int| 0 <= i < others.len() + 1 implies fits(
                #[trigger] others.push(kept)[i],
                depth + 1,
            ) by {
                if i < others.len() {
                    assert(others.push(kept)[i] == others[i]);
                }
            }
        }
        lemma_with_array_fits(guild, "voice_states"@, others, depth + 1);
        lemma_with_array_fits(guild, "voice_states"@, others.push(kept), depth + 1);
    } else {
        lemma_with_array_fits(guild, "voice_states"@, seq![state], depth + 1);
    }
}

/// A guild with members upserted fits.
proof fn lemma_members_upserted_fits(guild: JsonTree, members: Seq<JsonTree>, depth: nat)
    requires
        fits(guild, depth + 2),
        all_fit(members, depth),
    ensures
        fits(members_upserted(guild, members), depth + 2),
{
    let known = match guild.at("members"@).as_array() {
        Some(items) => items,
        None => Seq::empty(),
    };
    if guild.at("members"@) is Array {
        lemma_items_fit(guild, "members"@, depth);
    }
    lemma_all_upserted_fits(known, IdPlace::User, members, depth);
    lemma_with_array_fits(
        guild,
        "members"@,
        all_upserted(known, IdPlace::User, members),
        depth,
    );
}

/// A guild with a member upserted fits.
proof fn lemma_member_upserted_fits(
    guild: JsonTree,
    user: Seq<char>,
    member: JsonTree,
    depth: nat,
)
    requires
        fits(guild, depth + 3),
        fits(member, depth),
    ensures
        fits(member_upserted(guild, user, member), depth + 3),
{
    lemma_fits_deeper(member, depth, depth + 1);
    lemma_item_upserted_fits(guild, "members"@, IdPlace::User, user, member, depth + 1);
    let listed = item_upserted(guild, "members"@, IdPlace::User, user, member);
    if let JsonTree::Array(states) = listed.at("voice_states"@) {
        lemma_items_fit(listed, "voice_states"@, depth + 1);
        let fresh = states.map_values(|s: JsonTree| member_refreshed(s, user, member));
        assert forall|i: int| 0 <= i < fresh.len() implies fits(#[trigger] fresh[i], depth + 1) by {
            assert(fits(states[i], depth + 1));
            lemma_with_fits(states[i], "member"@, member, depth);
        }
        lemma_with_array_fits(listed, "voice_states"@, fresh, depth + 1);
    }
}

/// How deep the data of an event may nest for the guilds to stay plain: they come
/// to stand at most three levels deep in a guild.
pub open spec fn data_depth() -> nat {
    (MAX_NESTING - 3) as nat
}

/// Whether all guilds are plain.
pub open spec fn all_plain(cache: CacheView) -> bool {
    forall|guild: u64| #[trigger]
        cache.guilds.contains_key(guild) ==> is_plain(cache.guilds[guild].tree)
}

/// A plain guild stays plain where its edit does.
proof fn lemma_edited_plain(cache: CacheView, guild: u64, edit: spec_fn(JsonTree) -> JsonTree)
    requires
        cache.sound(),
        all_plain(cache),
        cache.guilds.contains_key(guild) ==> is_plain(edit(cache.guilds[guild].tree)),
    ensures
        all_plain(cache.edited(guild, edit)),
{
    if cache.guilds.contains_key(guild) {
        law_stored_guild_reads_back(cache, guild);
    }
}

/// An event keeps the guilds plain, if its data have no real numbers and leave room
/// for where they come to stand.
pub proof fn law_event_keeps_guilds_plain(
    cache: CacheView,
    event: Event,
    message: Option<JsonTree>,
    guild: Option<u64>,
)
    requires
        cache.sound(),
        all_plain(cache),
        message matches Some(message) ==> fits(message.at("d"@), data_depth()),
    ensures
        all_plain(cache.after(event, message, guild)),
{
    if let (Some(message), Some(guild)) = (message, guild) {
        lemma_change_keeps_plain(cache, event, guild, message.at("d"@));
    }
    if let Some(message) = message {
        lemma_fits_deeper(message.at("d"@), data_depth(), MAX_NESTING as nat);
    }
}

/// A change of one guild keeps the guilds plain.
proof fn lemma_change_keeps_plain(cache: CacheView, event: Event, guild: u64, data: JsonTree)
    requires
        cache.sound(),
        all_plain(cache),
        fits(data, data_depth()),
    ensures
        all_plain(cache.changed(event, guild, data)),
{
    let d = data_depth();
    let tree = cache.guilds[guild].tree;
    lemma_fits_deeper(data, d, d + 1);
    lemma_fits_deeper(data, d, d + 3);
    lemma_without_fits(data, "guild_id"@, d);
    let stripped = data.without("guild_id"@);
    if cache.guilds.contains_key(guild) {
        assert(fits(tree, d + 3));
        match event {
            Event::GuildUpdate => {
                lemma_fields_merged_fits(tree, data, d + 3);
                lemma_edited_plain(cache, guild, |t: JsonTree| fields_merged(t, data));
            },
            Event::ChannelCreate | Event::ThreadCreate => {
                let key = if event == Event::ChannelCreate {
                    "channels"@
                } else {
                    "threads"@
                };
                if let (Some(id), Some(number)) = (data.at("id"@).as_text(), id_number(data)) {
                    let pointed = CacheView {
                        guilds: cache.guilds,
                        channels: cache.channels.insert(number, guild),
                    };
                    lemma_channel_added_fits(tree, key, id, data, d + 1);
                    lemma_edited_plain(
                        pointed,
                        guild,
                        |t: JsonTree| channel_added(t, key, id, data),
                    );
                }
            },
            Event::ChannelUpdate => {
                if let Some(id) = data.at("id"@).as_text() {
                    lemma_channel_updated_fits(tree, id, data, d + 1);
                    lemma_edited_plain(cache, guild, |t: JsonTree| channel_updated(t, id, data));
                }
            },
            Event::ChannelDelete => {
                if let Some(number) = id_number(data) {
                    let id = decimal(number as nat);
                    let unindexed = CacheView {
                        guilds: cache.guilds,
                        channels: cache.channels.remove(number),
                    };
                    lemma_item_dropped_fits(tree, "channels"@, IdPlace::Own, id, d + 1);
                    lemma_item_dropped_fits(
                        item_dropped(tree, "channels"@, IdPlace::Own, id),
                        "threads"@,
                        IdPlace::Own,
                        id,
                        d + 1,
                    );
                    lemma_edited_plain(
                        unindexed,
                        guild,
                        |t: JsonTree| channel_removed(t, decimal(number as nat)),
                    );
                }
            },
            Event::ThreadListSync => {
                if let Some(threads) = data.at("threads"@).as_array() {
                    lemma_member_fits(data, "threads"@, (d - 1) as nat);
                    lemma_fits_deeper(data.at("threads"@), (d - 1) as nat, d + 2);
                    lemma_with_fits(tree, "threads"@, data.at("threads"@), d + 2);
                    let pointed = CacheView {
                        guilds: cache.guilds,
                        channels: indexed(cache.channels, threads, guild),
                    };
                    lemma_edited_plain(
                        pointed,
                        guild,
                        |t: JsonTree| t.with("threads"@, JsonTree::Array(threads)),
                    );
                }
            },
            Event::RoleUpsert => {
                let role = data.at("role"@);
                if let Some(id) = role.at("id"@).as_text() {
                    lemma_member_fits(data, "role"@, (d - 1) as nat);
                    lemma_fits_deeper(role, (d - 1) as nat, d + 1);
                    lemma_item_upserted_fits(tree, "roles"@, IdPlace::Own, id, role, d + 1);
                    lemma_edited_plain(
                        cache,
                        guild,
                        |t: JsonTree|
                            item_upserted(t, "roles"@, IdPlace::Own, id, data.at("role"@)),
                    );
                }
            },
            Event::RoleDelete => {
                if let Some(id) = data.at("role_id"@).as_text() {
                    lemma_item_dropped_fits(tree, "roles"@, IdPlace::Own, id, d + 1);
                    lemma_edited_plain(
                        cache,
                        guild,
                        |t: JsonTree| item_dropped(t, "roles"@, IdPlace::Own, id),
                    );
                }
            },
            Event::EmojisUpdate => {
                lemma_field_replaced_plain(cache, guild, data, "emojis"@);
            },
            Event::StickersUpdate => {
                lemma_field_replaced_plain(cache, guild, data, "stickers"@);
            },
            Event::VoiceStateUpdate => {
                if let Some(user) = data.at("user_id"@).as_text() {
                    lemma_voice_state_updated_fits(tree, user, stripped, d);
                    lemma_edited_plain(
                        cache,
                        guild,
                        |t: JsonTree| voice_state_updated(t, user, data.without("guild_id"@)),
                    );
                }
            },
            Event::MemberUpsert => {
                if let Some(user) = IdPlace::User.id_of(stripped) {
                    lemma_member_upserted_fits(tree, user, stripped, d);
                    lemma_edited_plain(
                        cache,
                        guild,
                        |t: JsonTree| member_upserted(t, user, data.without("guild_id"@)),
                    );
                }
            },
            Event::MemberRemove => {
                if let Some(user) = IdPlace::User.id_of(data) {
                    lemma_item_dropped_fits(tree, "members"@, IdPlace::User, user, d + 1);
                    lemma_item_dropped_fits(
                        item_dropped(tree, "members"@, IdPlace::User, user),
                        "voice_states"@,
                        IdPlace::UserId,
                        user,
                        d + 1,
                    );
                    lemma_edited_plain(cache, guild, |t: JsonTree| member_removed(t, user));
                }
            },
            Event::MembersChunk => {
                if let Some(members) = data.at("members"@).as_array() {
                    lemma_items_fit(data, "members"@, (d - 2) as nat);
                    assert forall|i: int| 0 <= i < members.len() implies fits(
                        #[trigger] members[i],
                        d + 1,
                    ) by {
                        lemma_fits_deeper(members[i], (d - 2) as nat, d + 1);
                    }
                    lemma_members_upserted_fits(tree, members, d + 1);
                    lemma_edited_plain(cache, guild, |t: JsonTree| members_upserted(t, members));
                }
            },
            Event::GuildCreate | Event::GuildDelete => {},
        }
    }
}

/// A member of the guild replaced by that of the event keeps the guilds plain.
proof fn lemma_field_replaced_plain(
    cache: CacheView,
    guild: u64,
    data: JsonTree,
    key: Seq<char>,
)
    requires
        cache.sound(),
        all_plain(cache),
        fits(data, data_depth()),
    ensures
        all_plain(cache.field_replaced(guild, data, key)),
{
    let d = data_depth();
    if cache.guilds.contains_key(guild) {
        lemma_member_fits(data, key, (d - 1) as nat);
        lemma_fits_deeper(data.at(key), (d - 1) as nat, d + 2);
        lemma_with_fits(cache.guilds[guild].tree, key, data.at(key), d + 2);
        lemma_edited_plain(cache, guild, |t: JsonTree| t.with(key, data.at(key)));
    }
}

} // verus!
