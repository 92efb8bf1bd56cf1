//! What each dispatch event does to the JSON of a guild.
use crate::items::{
    all_upserted, drop_by_id, dropped, has_id, is_first, is_last,
    law_drop_of_unknown_changes_nothing, law_dropped_items_are_gone, law_upserted_item_is_found,
    lemma_first_unique, lemma_has_id, replace_by_id, replaced, upsert_all, upsert_by_id, upserted,
    IdPlace,
};
use crate::json::{
    lemma_trees, lemma_trees_push, lemma_with_same, lemma_without_with, members, trees, Json,
    JsonTree,
};
use vstd::prelude::*;

verus! {

/// The guild with the items of the array `key` that have the id `id` dropped.
pub open spec fn item_dropped(
    guild: JsonTree,
    key: Seq<char>,
    place: IdPlace,
    id: Seq<char>,
) -> JsonTree {
    match guild.at(key).as_array() {
        Some(items) => guild.with(key, JsonTree::Array(dropped(items, place, id))),
        None => guild,
    }
}

/// The guild with an item upserted in the array `key`.
pub open spec fn item_upserted(
    guild: JsonTree,
    key: Seq<char>,
    place: IdPlace,
    id: Seq<char>,
    item: JsonTree,
) -> JsonTree {
    match guild.at(key).as_array() {
        Some(items) => guild.with(key, JsonTree::Array(upserted(items, place, id, item))),
        None => guild,
    }
}

/// The guild with every member of the update set.
pub open spec fn fields_merged(guild: JsonTree, update: JsonTree) -> JsonTree {
    match (guild, update) {
        (JsonTree::Object(stored), JsonTree::Object(changes)) => JsonTree::Object(
            stored.union_prefer_right(changes),
        ),
        _ => guild,
    }
}

/// The guild with a channel, or thread, put at the end of the array `key` in
/// place of those that have its id.
pub open spec fn channel_added(
    guild: JsonTree,
    key: Seq<char>,
    id: Seq<char>,
    channel: JsonTree,
) -> JsonTree {
    match guild.at(key).as_array() {
        Some(items) => guild.with(
            key,
            JsonTree::Array(dropped(items, IdPlace::Own, id).push(channel)),
        ),
        None => guild,
    }
}

/// Whether the array `key` of the guild has an item with the id `id`.
pub open spec fn lists(guild: JsonTree, key: Seq<char>, id: Seq<char>) -> bool {
    guild.at(key).as_array() matches Some(items) && has_id(items, IdPlace::Own, id)
}

/// The guild with the item of the array `key` that has the id `id` replaced.
pub open spec fn channel_replaced(
    guild: JsonTree,
    key: Seq<char>,
    id: Seq<char>,
    channel: JsonTree,
) -> JsonTree {
    match guild.at(key).as_array() {
        Some(items) => guild.with(
            key,
            JsonTree::Array(replaced(items, IdPlace::Own, id, channel)),
        ),
        None => guild,
    }
}

/// The guild with a channel updated where it is known as a channel, else where
/// it is known as a thread.
pub open spec fn channel_updated(guild: JsonTree, id: Seq<char>, channel: JsonTree) -> JsonTree {
    if lists(guild, "channels"@, id) {
        channel_replaced(guild, "channels"@, id, channel)
    } else if lists(guild, "threads"@, id) {
        channel_replaced(guild, "threads"@, id, channel)
    } else {
        guild
    }
}

/// The guild without a channel or thread.
pub open spec fn channel_removed(guild: JsonTree, id: Seq<char>) -> JsonTree {
    item_dropped(
        item_dropped(guild, "channels"@, IdPlace::Own, id),
        "threads"@,
        IdPlace::Own,
        id,
    )
}

/// The member that the last of the user's voice states carries.
pub open spec fn known_member(states: Seq<JsonTree>, user: Seq<char>) -> JsonTree {
    if exists|i: int| is_last(states, IdPlace::UserId, user, i) {
        states[choose|i: int| is_last(states, IdPlace::UserId, user, i)].at("member"@)
    } else {
        JsonTree::Null
    }
}

/// A voice state with its own member, or else with the one already known.
pub open spec fn member_kept(state: JsonTree, known: JsonTree) -> JsonTree {
    if !(state.at("member"@) is Object) && known is Object {
        state.with("member"@, known)
    } else {
        state
    }
}

/// The guild after a change of a user's voice state: where the user is in no
/// channel any more the state goes, else the new state comes last.
pub open spec fn voice_state_updated(
    guild: JsonTree,
    user: Seq<char>,
    state: JsonTree,
) -> JsonTree {
    let left = state.at("channel_id"@) is Null;
    match guild.at("voice_states"@).as_array() {
        Some(states) => {
            let others = dropped(states, IdPlace::UserId, user);
            guild.with(
                "voice_states"@,
                JsonTree::Array(
                    if left {
                        others
                    } else {
                        others.push(member_kept(state, known_member(states, user)))
                    },
                ),
            )
        },
        None => if left {
            guild
        } else {
            guild.with("voice_states"@, JsonTree::Array(seq![state]))
        },
    }
}

/// The guild with each of the members upserted.
pub open spec fn members_upserted(guild: JsonTree, members: Seq<JsonTree>) -> JsonTree {
    let known = match guild.at("members"@).as_array() {
        Some(items) => items,
        None => Seq::empty(),
    };
    guild.with("members"@, JsonTree::Array(all_upserted(known, IdPlace::User, members)))
}

/// A voice state with the member set where it is the user's.
pub open spec fn member_refreshed(state: JsonTree, user: Seq<char>, member: JsonTree) -> JsonTree {
    if IdPlace::UserId.id_of(state) == Some(user) {
        state.with("member"@, member)
    } else {
        state
    }
}

/// The guild with the member set in each of the user's voice states.
pub open spec fn voice_members_refreshed(
    guild: JsonTree,
    user: Seq<char>,
    member: JsonTree,
) -> JsonTree {
    match guild.at("voice_states"@).as_array() {
        Some(states) => guild.with(
            "voice_states"@,
            JsonTree::Array(states.map_values(|s: JsonTree| member_refreshed(s, user, member))),
        ),
        None => guild,
    }
}

/// The guild with a member upserted, and refreshed where a voice state carries it.
pub open spec fn member_upserted(guild: JsonTree, user: Seq<char>, member: JsonTree) -> JsonTree {
    voice_members_refreshed(
        item_upserted(guild, "members"@, IdPlace::User, user, member),
        user,
        member,
    )
}

/// The guild without a member and without the member's voice states.
pub open spec fn member_removed(guild: JsonTree, user: Seq<char>) -> JsonTree {
    item_dropped(
        item_dropped(guild, "members"@, IdPlace::User, user),
        "voice_states"@,
        IdPlace::UserId,
        user,
    )
}

/// Puts an array back that was taken out of the guild.
fn put_array(guild: &mut Json, key: &str, items: Vec<Json>, Ghost(before): Ghost<JsonTree>)
    requires
        before.at(key@) is Array,
        old(guild)@ == before.without(key@),
    ensures
        final(guild)@ == before.with(key@, JsonTree::Array(trees(items@))),
{
    proof {
        lemma_without_with(before, key@, JsonTree::Array(trees(items@)));
    }
    guild.set(key, Json::Array(items));
}

/// Drops the items of the array `key` that have the id `id`.
pub fn drop_item(guild: &mut Json, key: &str, place: IdPlace, id: &str)
    ensures
        final(guild)@ == item_dropped(old(guild)@, key@, place, id@),
{
    let ghost before = guild@;
    if let Some(items) = guild.take_array(key) {
        put_array(guild, key, drop_by_id(items, place, id), Ghost(before));
    }
}

/// Upserts an item in the array `key`.
pub fn upsert_item(guild: &mut Json, key: &str, place: IdPlace, id: &str, item: &Json)
    ensures
        final(guild)@ == item_upserted(old(guild)@, key@, place, id@, item@),
{
    let ghost before = guild@;
    if let Some(mut items) = guild.take_array(key) {
        upsert_by_id(&mut items, place, id, item);
        put_array(guild, key, items, Ghost(before));
    }
}

/// Sets every member of the update in the guild.
pub fn merge_fields(guild: &mut Json, update: &Json)
    ensures
        final(guild)@ == fields_merged(old(guild)@, update@),
{
    match (guild, update) {
        (Json::Object(stored), Json::Object(changes)) => {
            let ghost before = stored@;
            let mut i: usize = 0;
            assert(stored@ =~= before.union_prefer_right(members(changes.entries@.take(0))));
            while i < changes.entries.len()
                invariant
                    i <= changes.entries@.len(),
                    stored@ == before.union_prefer_right(
                        members(changes.entries@.take(i as int)),
                    ),
                decreases changes.entries.len() - i,
            {
                assert(changes.entries@.take(i + 1).drop_last() =~= changes.entries@.take(
                    i as int,
                ));
                stored.insert(changes.entries[i].0.clone(), changes.entries[i].1.clone());
                assert(stored@ =~= before.union_prefer_right(
                    members(changes.entries@.take(i + 1)),
                ));
                i += 1;
            }
            assert(changes.entries@.take(changes.entries@.len() as int) =~= changes.entries@);
        },
        _ => {},
    }
}

/// Puts a channel, or thread, at the end of the array `key` in place of those
/// that have its id.
pub fn add_channel(guild: &mut Json, key: &str, id: &str, channel: Json)
    ensures
        final(guild)@ == channel_added(old(guild)@, key@, id@, channel@),
{
    let ghost before = guild@;
    if let Some(items) = guild.take_array(key) {
        let mut items: Vec<Json> = drop_by_id(items, IdPlace::Own, id);
        proof {
            lemma_trees_push(items@, channel);
        }
        items.push(channel);
        put_array(guild, key, items, Ghost(before));
    }
}

/// Replaces the item of the array `key` that has the id `id`. Says whether
/// there was one.
fn replace_channel(guild: &mut Json, key: &str, id: &str, channel: &Json) -> (r: bool)
    ensures
        r == lists(old(guild)@, key@, id@),
        final(guild)@ == channel_replaced(old(guild)@, key@, id@, channel@),
{
    let ghost before = guild@;
    match guild.take_array(key) {
        Some(mut items) => {
            let found = replace_by_id(&mut items, IdPlace::Own, id, channel);
            put_array(guild, key, items, Ghost(before));
            found
        },
        None => false,
    }
}

/// Updates a channel where it is known as a channel, else where it is known as
/// a thread.
pub fn update_channel(guild: &mut Json, id: &str, channel: &Json)
    ensures
        final(guild)@ == channel_updated(old(guild)@, id@, channel@),
{
    let ghost before = guild@;
    if !replace_channel(guild, "channels", id, channel) {
        proof {
            lemma_channel_replaced_unlisted(before, "channels"@, id@, channel@);
            if !lists(before, "threads"@, id@) {
                lemma_channel_replaced_unlisted(before, "threads"@, id@, channel@);
            }
        }
        let _ = replace_channel(guild, "threads", id, channel);
    }
}

/// Where no item has the id, replacing changes nothing.
proof fn lemma_channel_replaced_unlisted(
    guild: JsonTree,
    key: Seq<char>,
    id: Seq<char>,
    channel: JsonTree,
)
    requires
        !lists(guild, key, id),
    ensures
        channel_replaced(guild, key, id, channel) == guild,
{
    if let Some(items) = guild.at(key).as_array() {
        lemma_with_same(guild, key);
    }
}

/// Drops a channel or thread.
pub fn remove_channel(guild: &mut Json, id: &str)
    ensures
        final(guild)@ == channel_removed(old(guild)@, id@),
{
    drop_item(guild, "channels", IdPlace::Own, id);
    drop_item(guild, "threads", IdPlace::Own, id);
}

/// The member that the last of the user's voice states carries.
fn find_known_member(states: &Vec<Json>, user: &str) -> (r: Json)
    ensures
        r@ == known_member(trees(states@), user@),
{
    let ghost list = trees(states@);
    proof {
        lemma_trees(states@);
    }
    let mut i: usize = states.len();
    while i > 0
        invariant
            i <= states@.len(),
            list == trees(states@),
            list.len() == states@.len(),
            forall|k: int| 0 <= k < states@.len() ==> list[k] == (#[trigger] states@[k])@,
            forall|j: int|
                i <= j < list.len() ==> IdPlace::UserId.id_of(#[trigger] list[j]) != Some(user@),
        decreases i,
    {
        i -= 1;
        assert(states@[i as int]@ == list[i as int]);
        if IdPlace::UserId.matches(&states[i], user) {
            proof {
                assert(is_last(list, IdPlace::UserId, user@, i as int));
                let k = choose|k: int| is_last(list, IdPlace::UserId, user@, k);
                assert(IdPlace::UserId.id_of(list[k]) == Some(user@));
            }
            return states[i].copy_at("member");
        }
    }
    Json::Null
}

/// Records a change of a user's voice state.
pub fn update_voice_state(guild: &mut Json, user: &str, state: Json)
    requires
        old(guild)@ is Object,
        state@ is Object,
    ensures
        final(guild)@ == voice_state_updated(old(guild)@, user@, state@),
{
    let left = state.null_at("channel_id");
    let ghost before = guild@;
    match guild.take_array("voice_states") {
        Some(states) => {
            let known = find_known_member(&states, user);
            let mut others: Vec<Json> = drop_by_id(states, IdPlace::UserId, user);
            if !left {
                let mut state = state;
                if !state.object_at("member") {
                    if let Json::Object(_) = &known {
                        state.set("member", known);
                    }
                }
                proof {
                    lemma_trees_push(others@, state);
                }
                others.push(state);
            }
            put_array(guild, "voice_states", others, Ghost(before));
        },
        None => {
            if !left {
                let mut states: Vec<Json> = Vec::new();
                proof {
                    lemma_trees_push(states@, state);
                    assert(trees(states@).push(state@) =~= seq![state@]);
                }
                states.push(state);
                guild.set("voice_states", Json::Array(states));
            }
        },
    }
}

/// Upserts each of the members.
pub fn upsert_members(guild: &mut Json, members: &Vec<Json>)
    requires
        old(guild)@ is Object,
    ensures
        final(guild)@ == members_upserted(old(guild)@, trees(members@)),
{
    let ghost before = guild@;
    match guild.take_array("members") {
        Some(mut known) => {
            upsert_all(&mut known, IdPlace::User, members);
            put_array(guild, "members", known, Ghost(before));
        },
        None => {
            let mut known: Vec<Json> = Vec::new();
            upsert_all(&mut known, IdPlace::User, members);
            guild.set("members", Json::Array(known));
        },
    }
}

/// Sets the member in each of the user's voice states.
fn refresh_voice_members(guild: &mut Json, user: &str, member: &Json)
    ensures
        final(guild)@ == voice_members_refreshed(old(guild)@, user@, member@),
{
    let ghost before = guild@;
    if let Some(states) = guild.take_array("voice_states") {
        let ghost list = states@;
        let mut out: Vec<Json> = Vec::new();
        for state in it: states
            invariant
                it.seq() == list,
                trees(out@) == trees(list.take(it.index())).map_values(
                    |s: JsonTree| member_refreshed(s, user@, member@),
                ),
        {
            let ghost done = trees(list.take(it.index()));
            let ghost was = state@;
            proof {
                assert(list.take(it.index() + 1) =~= list.take(it.index()).push(state));
                lemma_trees_push(list.take(it.index()), state);
            }
            let mut state = state;
            if IdPlace::UserId.matches(&state, user) {
                state.set("member", member.clone());
            }
            proof {
                lemma_trees_push(out@, state);
                assert(done.push(was).map_values(
                    |s: JsonTree| member_refreshed(s, user@, member@),
                ) =~= done.map_values(|s: JsonTree| member_refreshed(s, user@, member@)).push(
                    member_refreshed(was, user@, member@),
                ));
            }
            out.push(state);
        }
        assert(list.take(list.len() as int) =~= list);
        put_array(guild, "voice_states", out, Ghost(before));
    }
}

/// Upserts a member, and refreshes it where a voice state carries it.
pub fn upsert_member(guild: &mut Json, user: &str, member: &Json)
    ensures
        final(guild)@ == member_upserted(old(guild)@, user@, member@),
{
    upsert_item(guild, "members", IdPlace::User, user, member);
    refresh_voice_members(guild, user, member);
}

/// Drops a member and the member's voice states.
pub fn remove_member(guild: &mut Json, user: &str)
    ensures
        final(guild)@ == member_removed(old(guild)@, user@),
{
    drop_item(guild, "members", IdPlace::User, user);
    drop_item(guild, "voice_states", IdPlace::UserId, user);
}

// --- What holds of a guild after an event ---

/// Whether two guilds differ at most in the member `key`.
pub open spec fn same_but(a: JsonTree, b: JsonTree, key: Seq<char>) -> bool {
    forall|other: Seq<char>| other != key ==> #[trigger] a.at(other) == b.at(other)
}

/// An upserted role, or other item, is found by its id; the others stay as they
/// are, and so does the rest of the guild.
pub proof fn law_upserted_in_guild(
    guild: JsonTree,
    key: Seq<char>,
    place: IdPlace,
    id: Seq<char>,
    item: JsonTree,
)
    requires
        guild.at(key) is Array,
        place.id_of(item) == Some(id),
    ensures
        item_upserted(guild, key, place, id, item).at(key) matches JsonTree::Array(items) && {
            &&& exists|i: int| #[trigger] is_first(items, place, id, i) && items[i] == item
            &&& dropped(items, place, id) == dropped(guild.at(key)->Array_0, place, id)
        },
        same_but(item_upserted(guild, key, place, id, item), guild, key),
{
    law_upserted_item_is_found(guild.at(key)->Array_0, place, id, item);
}

/// A dropped role, or other item, is not found any more; the others stay as they
/// are, and so does the rest of the guild.
pub proof fn law_dropped_in_guild(guild: JsonTree, key: Seq<char>, place: IdPlace, id: Seq<char>)
    ensures
        item_dropped(guild, key, place, id).at(key) matches JsonTree::Array(items) ==> {
            &&& !has_id(items, place, id)
            &&& forall|item: JsonTree| #[trigger]
                items.contains(item) <==> guild.at(key)->Array_0.contains(item) && place.id_of(item)
                    != Some(id)
        },
        same_but(item_dropped(guild, key, place, id), guild, key),
{
    if let JsonTree::Array(items) = guild.at(key) {
        law_dropped_items_are_gone(items, place, id);
    }
}

/// Dropping a role, or other item, leaves the guild as if it had not been upserted
/// before.
pub proof fn law_drop_undoes_upsert(
    guild: JsonTree,
    key: Seq<char>,
    place: IdPlace,
    id: Seq<char>,
    item: JsonTree,
)
    requires
        place.id_of(item) == Some(id),
    ensures
        item_dropped(item_upserted(guild, key, place, id, item), key, place, id) == item_dropped(
            guild,
            key,
            place,
            id,
        ),
{
    if let (JsonTree::Object(map), JsonTree::Array(items)) = (guild, guild.at(key)) {
        law_upserted_item_is_found(items, place, id, item);
        let left = JsonTree::Array(dropped(items, place, id));
        let more = JsonTree::Array(upserted(items, place, id, item));
        assert(map.insert(key, more).insert(key, left) =~= map.insert(key, left));
    }
}

/// An added channel, or thread, stands last in its array and is the only one there
/// with its id.
pub proof fn law_added_channel_is_listed_once(
    guild: JsonTree,
    key: Seq<char>,
    id: Seq<char>,
    channel: JsonTree,
)
    requires
        guild.at(key) is Array,
        IdPlace::Own.id_of(channel) == Some(id),
    ensures
        channel_added(guild, key, id, channel).at(key) matches JsonTree::Array(items) && {
            &&& items.len() > 0
            &&& items.last() == channel
            &&& is_first(items, IdPlace::Own, id, items.len() - 1)
            &&& items.drop_last() == dropped(guild.at(key)->Array_0, IdPlace::Own, id)
        },
        same_but(channel_added(guild, key, id, channel), guild, key),
{
    let others = dropped(guild.at(key)->Array_0, IdPlace::Own, id);
    let items = others.push(channel);
    law_dropped_items_are_gone(guild.at(key)->Array_0, IdPlace::Own, id);
    assert(items.drop_last() =~= others);
    assert forall|j: int| 0 <= j < items.len() - 1 implies IdPlace::Own.id_of(#[trigger] items[j])
        != Some(id) by {
        if IdPlace::Own.id_of(others[j]) == Some(id) {
            lemma_has_id(others, IdPlace::Own, id, j);
        }
    }
}

/// An update of a channel or thread that is listed puts it in the place of the one
/// that was listed.
pub proof fn law_updated_channel_is_replaced(
    guild: JsonTree,
    key: Seq<char>,
    id: Seq<char>,
    channel: JsonTree,
    i: int,
)
    requires
        key == "channels"@ || key == "threads"@ && !lists(guild, "channels"@, id),
        guild.at(key) is Array,
        is_first(guild.at(key)->Array_0, IdPlace::Own, id, i),
    ensures
        channel_updated(guild, id, channel).at(key) == JsonTree::Array(
            guild.at(key)->Array_0.update(i, channel),
        ),
        same_but(channel_updated(guild, id, channel), guild, key),
{
    lemma_first_unique(guild.at(key)->Array_0, IdPlace::Own, id, i);
}

/// A removed channel, or thread, is listed neither as a channel nor as a thread.
pub proof fn law_removed_channel_is_not_listed(guild: JsonTree, id: Seq<char>)
    ensures
        !lists(channel_removed(guild, id), "channels"@, id),
        !lists(channel_removed(guild, id), "threads"@, id),
        forall|other: Seq<char>|
            other != "channels"@ && other != "threads"@ ==> #[trigger] channel_removed(
                guild,
                id,
            ).at(other) == guild.at(other),
{
    reveal_strlit("channels");
    reveal_strlit("threads");
    let once = item_dropped(guild, "channels"@, IdPlace::Own, id);
    law_dropped_in_guild(guild, "channels"@, IdPlace::Own, id);
    law_dropped_in_guild(once, "threads"@, IdPlace::Own, id);
    assert("channels"@.len() != "threads"@.len());
}

/// A removed member is listed no more, and has no voice state any more.
pub proof fn law_removed_member_is_gone(guild: JsonTree, user: Seq<char>)
    ensures
        member_removed(guild, user).at("members"@) matches JsonTree::Array(items) ==> !has_id(
            items,
            IdPlace::User,
            user,
        ),
        member_removed(guild, user).at("voice_states"@) matches JsonTree::Array(states) ==> !has_id(
            states,
            IdPlace::UserId,
            user,
        ),
        forall|other: Seq<char>|
            other != "members"@ && other != "voice_states"@ ==> #[trigger] member_removed(
                guild,
                user,
            ).at(other) == guild.at(other),
{
    reveal_strlit("members");
    reveal_strlit("voice_states");
    let once = item_dropped(guild, "members"@, IdPlace::User, user);
    law_dropped_in_guild(guild, "members"@, IdPlace::User, user);
    law_dropped_in_guild(once, "voice_states"@, IdPlace::UserId, user);
    assert("members"@.len() != "voice_states"@.len());
}

/// After a change of a member each voice state of the user carries the member as it
/// is now. The voice states of others stay as they are.
pub proof fn law_voice_states_carry_new_member(
    guild: JsonTree,
    user: Seq<char>,
    member: JsonTree,
    i: int,
)
    requires
        guild.at("voice_states"@) is Array,
        0 <= i < guild.at("voice_states"@)->Array_0.len(),
    ensures
        member_upserted(guild, user, member).at("voice_states"@) matches JsonTree::Array(states) && {
            let before = guild.at("voice_states"@)->Array_0;
            &&& states.len() == before.len()
            &&& IdPlace::UserId.id_of(states[i]) == IdPlace::UserId.id_of(before[i])
            &&& if IdPlace::UserId.id_of(before[i]) == Some(user) {
                states[i].at("member"@) == member
            } else {
                states[i] == before[i]
            }
        },
{
    reveal_strlit("members");
    reveal_strlit("voice_states");
    reveal_strlit("member");
    reveal_strlit("user_id");
    assert("members"@.len() != "voice_states"@.len());
    assert("member"@.len() != "user_id"@.len());
    let listed = item_upserted(guild, "members"@, IdPlace::User, user, member);
    assert(listed.at("voice_states"@) == guild.at("voice_states"@));
}

/// A user who is in no voice channel any more has no voice state.
pub proof fn law_left_user_has_no_voice_state(guild: JsonTree, user: Seq<char>, state: JsonTree)
    requires
        state.at("channel_id"@) is Null,
    ensures
        voice_state_updated(guild, user, state).at("voice_states"@) matches JsonTree::Array(states)
            ==> !has_id(states, IdPlace::UserId, user),
        same_but(voice_state_updated(guild, user, state), guild, "voice_states"@),
{
    if let JsonTree::Array(states) = guild.at("voice_states"@) {
        law_dropped_items_are_gone(states, IdPlace::UserId, user);
    }
}

/// A user who is in a voice channel has exactly one voice state, the last of them.
/// Those of others stay as they are.
pub proof fn law_joined_user_has_one_voice_state(
    guild: JsonTree,
    user: Seq<char>,
    state: JsonTree,
)
    requires
        guild is Object,
        !(state.at("channel_id"@) is Null),
        IdPlace::UserId.id_of(state) == Some(user),
    ensures
        voice_state_updated(guild, user, state).at("voice_states"@) matches JsonTree::Array(states)
            && {
            &&& states.len() > 0
            &&& is_first(states, IdPlace::UserId, user, states.len() - 1)
            &&& guild.at("voice_states"@) matches JsonTree::Array(before) ==> states.drop_last()
                == dropped(before, IdPlace::UserId, user)
        },
        same_but(voice_state_updated(guild, user, state), guild, "voice_states"@),
{
    reveal_strlit("member");
    reveal_strlit("user_id");
    assert("member"@.len() != "user_id"@.len());
    if let JsonTree::Array(before) = guild.at("voice_states"@) {
        let others = dropped(before, IdPlace::UserId, user);
        let kept = member_kept(state, known_member(before, user));
        let states = others.push(kept);
        law_dropped_items_are_gone(before, IdPlace::UserId, user);
        assert(states.drop_last() =~= others);
        assert(IdPlace::UserId.id_of(kept) == Some(user));
        assert forall|j: int| 0 <= j < states.len() - 1 implies IdPlace::UserId.id_of(
            #[trigger] states[j],
        ) != Some(user) by {
            if IdPlace::UserId.id_of(others[j]) == Some(user) {
                lemma_has_id(others, IdPlace::UserId, user, j);
            }
        }
    }
}

/// A voice state keeps its member when an update does not bring one.
pub proof fn law_voice_state_keeps_member(
    guild: JsonTree,
    user: Seq<char>,
    first: JsonTree,
    second: JsonTree,
)
    requires
        guild is Object,
        !(first.at("channel_id"@) is Null),
        !(second.at("channel_id"@) is Null),
        IdPlace::UserId.id_of(first) == Some(user),
        second is Object,
        first.at("member"@) is Object,
        !(second.at("member"@) is Object),
    ensures
        voice_state_updated(voice_state_updated(guild, user, first), user, second).at(
            "voice_states"@,
        ) matches JsonTree::Array(states) && states.len() > 0 && states.last().at("member"@)
            == first.at("member"@),
{
    let once = voice_state_updated(guild, user, first);
    law_joined_user_has_one_voice_state(guild, user, first);
    let states = once.at("voice_states"@)->Array_0;
    let n = states.len() - 1;
    assert(states[n] == first);
    assert(is_last(states, IdPlace::UserId, user, n));
    let k = choose|k: int| is_last(states, IdPlace::UserId, user, k);
    assert(is_last(states, IdPlace::UserId, user, k));
    assert(IdPlace::UserId.id_of(states[k]) == Some(user));
    assert(k == n);
}

/// An update of a guild sets what it brings and keeps everything else.
pub proof fn law_merge_keeps_other_fields(guild: JsonTree, update: JsonTree, key: Seq<char>)
    requires
        guild is Object,
        update is Object,
    ensures
        fields_merged(guild, update).at(key) == if update->Object_0.contains_key(key) {
            update.at(key)
        } else {
            guild.at(key)
        },
{
}

/// Adding a channel, or thread, and then deleting it gives the guild back, where the
/// id was not listed before.
pub proof fn law_removal_undoes_addition(
    guild: JsonTree,
    key: Seq<char>,
    id: Seq<char>,
    channel: JsonTree,
)
    requires
        key == "channels"@ || key == "threads"@,
        IdPlace::Own.id_of(channel) == Some(id),
        !lists(guild, "channels"@, id),
        !lists(guild, "threads"@, id),
    ensures
        channel_removed(channel_added(guild, key, id, channel), id) == guild,
{
    reveal_strlit("channels");
    reveal_strlit("threads");
    assert("channels"@.len() != "threads"@.len());
    let more = channel_added(guild, key, id, channel);
    lemma_item_dropped_unlisted(guild, "channels"@, id);
    lemma_item_dropped_unlisted(guild, "threads"@, id);
    if let (JsonTree::Object(map), JsonTree::Array(items)) = (guild, guild.at(key)) {
        law_drop_of_unknown_changes_nothing(items, IdPlace::Own, id);
        let all = items.push(channel);
        items.lemma_filter_push(channel, IdPlace::Own.differs(id));
        assert(dropped(all, IdPlace::Own, id) == items);
        assert(map.insert(key, JsonTree::Array(all)).insert(key, JsonTree::Array(items)) =~= map);
        assert(item_dropped(more, key, IdPlace::Own, id) == guild);
        if key == "threads"@ {
            assert(!lists(more, "channels"@, id));
            lemma_item_dropped_unlisted(more, "channels"@, id);
        }
    }
}

/// Where no item has the id, dropping changes nothing.
proof fn lemma_item_dropped_unlisted(guild: JsonTree, key: Seq<char>, id: Seq<char>)
    requires
        !lists(guild, key, id),
    ensures
        item_dropped(guild, key, IdPlace::Own, id) == guild,
{
    if let JsonTree::Array(items) = guild.at(key) {
        law_drop_of_unknown_changes_nothing(items, IdPlace::Own, id);
        lemma_with_same(guild, key);
    }
}

} // verus!
