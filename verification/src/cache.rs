//! The guild cache of a shard.
use crate::cache_model::{
    array_indexed, enumerates, event_named, guild_payload, id_number, indexed, names, ready_entry,
    storable, visible, CacheView, EntryView, Event, PendingView,
};
use crate::codec::{parse_json, parsed_json, print_json, printed_json};
use crate::guild::{
    add_channel, drop_item, merge_fields, remove_channel, remove_member, update_channel,
    update_voice_state, upsert_item, upsert_member, upsert_members,
};
use crate::items::IdPlace;
use crate::json::{lemma_trees, lemma_trees_push, trees, Json, JsonObject, JsonTree};
use crate::text::{decimal_text, parse_number, str_eq};
use std::collections::{HashMap, HashSet, VecDeque};
use vstd::prelude::*;

verus! {

broadcast use vstd::std_specs::hash::group_hash_axioms;

/// What is stored of a guild.
struct GuildEntry {
    /// The JSON of the guild as clients receive it.
    json: String,
    /// What the JSON was printed from.
    tree: Ghost<JsonTree>,
    unavailable: bool,
}

impl GuildEntry {
    spec fn view(self) -> EntryView {
        EntryView { tree: self.tree@, unavailable: self.unavailable }
    }

    /// Whether the text is that of the tree, and the tree can be stored.
    spec fn wf(self) -> bool {
        self.json@ == printed_json(self.tree@) && storable(self.tree@)
    }

    /// The entry for a guild with the given JSON.
    fn new(json: &Json, unavailable: bool) -> (r: GuildEntry)
        requires
            json@ is Object,
        ensures
            r.wf(),
            r.view() == (EntryView { tree: json@, unavailable }),
    {
        GuildEntry { json: print_json(json), tree: Ghost(json@), unavailable }
    }

    /// What a client is yet to learn of the guild.
    fn pending(&self, guild: u64) -> (r: PendingGuild)
        requires
            self.wf(),
        ensures
            r@ == (PendingView {
                guild,
                json: printed_json(self.view().tree),
                unavailable: self.unavailable,
            }),
    {
        PendingGuild { guild, json: self.json.clone(), unavailable: self.unavailable }
    }
}

/// The guilds of a shard.
struct GuildState {
    guilds: HashMap<u64, GuildEntry>,
    /// The guild of each channel and thread.
    channel_index: HashMap<u64, u64>,
}

/// The event that a name stands for.
pub fn event_of(name: &str) -> (r: Option<Event>)
    ensures
        r == event_named(name@),
{
    if str_eq(name, "GUILD_CREATE") {
        Some(Event::GuildCreate)
    } else if str_eq(name, "GUILD_UPDATE") {
        Some(Event::GuildUpdate)
    } else if str_eq(name, "GUILD_DELETE") {
        Some(Event::GuildDelete)
    } else if str_eq(name, "CHANNEL_CREATE") {
        Some(Event::ChannelCreate)
    } else if str_eq(name, "THREAD_CREATE") {
        Some(Event::ThreadCreate)
    } else if str_eq(name, "CHANNEL_UPDATE") || str_eq(name, "THREAD_UPDATE") {
        Some(Event::ChannelUpdate)
    } else if str_eq(name, "CHANNEL_DELETE") || str_eq(name, "THREAD_DELETE") {
        Some(Event::ChannelDelete)
    } else if str_eq(name, "THREAD_LIST_SYNC") {
        Some(Event::ThreadListSync)
    } else if str_eq(name, "ROLE_CREATE") || str_eq(name, "ROLE_UPDATE") {
        Some(Event::RoleUpsert)
    } else if str_eq(name, "ROLE_DELETE") {
        Some(Event::RoleDelete)
    } else if str_eq(name, "GUILD_EMOJIS_UPDATE") {
        Some(Event::EmojisUpdate)
    } else if str_eq(name, "GUILD_STICKERS_UPDATE") {
        Some(Event::StickersUpdate)
    } else if str_eq(name, "VOICE_STATE_UPDATE") {
        Some(Event::VoiceStateUpdate)
    } else if str_eq(name, "GUILD_MEMBER_ADD") || str_eq(name, "GUILD_MEMBER_UPDATE") {
        Some(Event::MemberUpsert)
    } else if str_eq(name, "GUILD_MEMBER_REMOVE") {
        Some(Event::MemberRemove)
    } else if str_eq(name, "GUILD_MEMBERS_CHUNK") {
        Some(Event::MembersChunk)
    } else {
        None
    }
}

/// The number that the member `id` of a value stands for.
fn read_id(item: &Json) -> (r: Option<u64>)
    ensures
        r == id_number(item@),
{
    match item.text_at("id") {
        Some(id) => parse_number(id),
        None => None,
    }
}

impl GuildState {
    spec fn view(self) -> CacheView {
        CacheView {
            guilds: self.guilds@.map_values(|e: GuildEntry| e.view()),
            channels: self.channel_index@,
        }
    }

    /// Whether every entry is well formed.
    spec fn wf(self) -> bool {
        forall|guild: u64| #[trigger] self.guilds@.contains_key(guild) ==> self.guilds@[guild].wf()
    }

    /// The guilds of a well-formed state can be stored.
    proof fn lemma_sound(self)
        requires
            self.wf(),
        ensures
            self.view().sound(),
    {
        assert forall|guild: u64| #[trigger] self.view().guilds.contains_key(guild) implies storable(
            self.view().guilds[guild].tree,
        ) by {
            assert(self.guilds@.contains_key(guild));
        }
    }

    fn new() -> (r: GuildState)
        ensures
            r.wf(),
            r.view() == CacheView::empty(),
    {
        let r = GuildState { guilds: HashMap::new(), channel_index: HashMap::new() };
        assert(r.view().guilds =~= Map::<u64, EntryView>::empty());
        assert(r.view().channels =~= Map::<u64, u64>::empty());
        r
    }

    /// What the stored text of a guild reads as.
    fn read_guild(&self, guild: u64) -> (r: Option<Json>)
        requires
            self.wf(),
        ensures
            match r {
                Some(json) => self.view().guild_tree(guild) == Some(json@) && json@ is Object,
                None => self.view().guild_tree(guild) is None,
            },
    {
        match self.guilds.get(&guild) {
            Some(entry) => {
                assert(entry.wf());
                assert(self.view().guilds.contains_key(guild));
                parse_json(entry.json.as_str())
            },
            None => None,
        }
    }

    /// Stores a guild's JSON anew.
    fn write_guild(&mut self, guild: u64, json: &Json)
        requires
            old(self).wf(),
            old(self).view().guilds.contains_key(guild),
            json@ is Object,
        ensures
            final(self).wf(),
            final(self).view() == (CacheView {
                guilds: old(self).view().guilds.insert(
                    guild,
                    EntryView { tree: json@, ..old(self).view().guilds[guild] },
                ),
                channels: old(self).view().channels,
            }),
    {
        let unavailable = match self.guilds.get(&guild) {
            Some(entry) => entry.unavailable,
            None => false,
        };
        let entry = GuildEntry::new(json, unavailable);
        self.guilds.insert(guild, entry);
        assert(self.view().guilds =~= old(self).view().guilds.insert(guild, entry.view()));
    }

    /// Points each of the items to the guild.
    fn index_items(&mut self, items: &Vec<Json>, guild: u64)
        ensures
            final(self).guilds == old(self).guilds,
            final(self).view() == (CacheView {
                guilds: old(self).view().guilds,
                channels: indexed(old(self).view().channels, trees(items@), guild),
            }),
    {
        let ghost list = trees(items@);
        proof {
            lemma_trees(items@);
        }
        let mut i: usize = 0;
        assert(self.channel_index@ =~= indexed(old(self).channel_index@, list.take(0), guild));
        while i < items.len()
            invariant
                i <= items@.len(),
                list.len() == items@.len(),
                forall|k: int| 0 <= k < items@.len() ==> list[k] == (#[trigger] items@[k])@,
                self.guilds == old(self).guilds,
                self.channel_index@ == indexed(
                    old(self).channel_index@,
                    list.take(i as int),
                    guild,
                ),
            decreases items.len() - i,
        {
            let ghost before = list.take(i as int);
            let ghost after = list.take(i + 1);
            let number = read_id(&items[i]);
            proof {
                assert(items@[i as int]@ == list[i as int]);
                assert(after =~= before.push(list[i as int]));
                assert forall|c: u64| names(after, c) == (names(before, c) || number == Some(c)) by {
                    if names(before, c) {
                        let k = choose|k: int|
                            0 <= k < before.len() && id_number(#[trigger] before[k]) == Some(c);
                        assert(after[k] == before[k]);
                    }
                    if number == Some(c) {
                        assert(id_number(after[i as int]) == Some(c));
                    }
                    if names(after, c) && number != Some(c) {
                        let k = choose|k: int|
                            0 <= k < after.len() && id_number(#[trigger] after[k]) == Some(c);
                        assert(before[k] == after[k]);
                    }
                }
            }
            if let Some(channel) = number {
                self.channel_index.insert(channel, guild);
            }
            assert(self.channel_index@ =~= indexed(old(self).channel_index@, after, guild));
            i += 1;
        }
        assert(list.take(list.len() as int) =~= list);
    }

    /// Points each item of the array `key` to the guild.
    fn index_array(&mut self, data: &Json, key: &str, guild: u64)
        ensures
            final(self).guilds == old(self).guilds,
            final(self).view() == (CacheView {
                guilds: old(self).view().guilds,
                channels: array_indexed(old(self).view().channels, data@, key@, guild),
            }),
    {
        if let Some(items) = data.array_at(key) {
            self.index_items(items, guild);
        }
    }

    fn on_guild_create(&mut self, data: &Json)
        requires
            old(self).wf(),
        ensures
            final(self).wf(),
            final(self).view() == old(self).view().guild_created(data@),
    {
        let guild = match read_id(data) {
            Some(guild) => guild,
            None => {
                return;
            },
        };
        let entry = GuildEntry::new(data, data.true_at("unavailable"));
        self.index_array(data, "channels", guild);
        self.index_array(data, "threads", guild);
        let ghost before = self.view();
        self.guilds.insert(guild, entry);
        assert(self.view().guilds =~= before.guilds.insert(guild, entry.view()));
    }

    /// Forgets the channels and threads of a guild.
    fn unindex_guild(&mut self, guild: u64)
        ensures
            final(self).guilds == old(self).guilds,
            final(self).view() == (CacheView {
                guilds: old(self).view().guilds,
                channels: Map::new(
                    |c: u64|
                        old(self).view().channels.contains_key(c)
                            && old(self).view().channels[c] != guild,
                    |c: u64| old(self).view().channels[c],
                ),
            }),
    {
        let mut kept: HashMap<u64, u64> = HashMap::new();
        let ghost all = self.channel_index@;
        for entry in it: self.channel_index.iter()
            invariant
                all == self.channel_index@,
                forall|i: int|
                    0 <= i < it.seq().len() ==> all.contains_key(*(#[trigger] it.seq()[i]).0)
                        && all[*it.seq()[i].0] == *it.seq()[i].1,
                forall|c: u64| #[trigger]
                    kept@.contains_key(c) ==> all.contains_key(c) && all[c] != guild && kept@[c]
                        == all[c],
                forall|i: int|
                    0 <= i < it.index() && *(#[trigger] it.seq()[i]).1 != guild
                        ==> kept@.contains_key(*it.seq()[i].0),
        {
            let (channel, owner) = entry;
            if *owner != guild {
                kept.insert(*channel, *owner);
            }
        }
        self.channel_index = kept;
        proof {
            assert(self.view().channels =~= Map::new(
                |c: u64| all.contains_key(c) && all[c] != guild,
                |c: u64| all[c],
            ));
        }
    }

    fn on_guild_delete(&mut self, guild: u64, unavailable: bool)
        requires
            old(self).wf(),
        ensures
            final(self).wf(),
            final(self).view() == old(self).view().guild_deleted(guild, unavailable),
    {
        let entry = self.guilds.remove(&guild);
        if unavailable {
            if let Some(entry) = entry {
                assert(old(self).view().guilds.contains_key(guild));
                let entry = GuildEntry { json: entry.json, tree: entry.tree, unavailable: true };
                self.guilds.insert(guild, entry);
                assert(self.view().guilds =~= old(self).view().guilds.insert(guild, entry.view()));
            } else {
                assert(self.view() =~= old(self).view());
            }
        } else {
            assert(self.view().guilds =~= old(self).view().guilds.remove(guild));
            self.unindex_guild(guild);
            assert(self.view() =~= old(self).view().guild_deleted(guild, false));
        }
    }

    fn on_guild_update(&mut self, guild: u64, data: &Json)
        requires
            old(self).wf(),
        ensures
            final(self).wf(),
            final(self).view() == old(self).view().changed(Event::GuildUpdate, guild, data@),
    {
        if let Some(mut json) = self.read_guild(guild) {
            merge_fields(&mut json, data);
            self.write_guild(guild, &json);
        }
    }

    fn on_channel_add(&mut self, guild: u64, data: &Json, is_thread: bool)
        requires
            old(self).wf(),
        ensures
            final(self).wf(),
            final(self).view() == old(self).view().changed(
                if is_thread {
                    Event::ThreadCreate
                } else {
                    Event::ChannelCreate
                },
                guild,
                data@,
            ),
    {
        let id = match data.text_at("id") {
            Some(id) => id,
            None => {
                return;
            },
        };
        let channel = match parse_number(id) {
            Some(channel) => channel,
            None => {
                return;
            },
        };
        let key = if is_thread {
            "threads"
        } else {
            "channels"
        };
        self.channel_index.insert(channel, guild);
        assert(self.view().guilds == old(self).view().guilds);
        if let Some(mut json) = self.read_guild(guild) {
            add_channel(&mut json, key, id, data.clone());
            self.write_guild(guild, &json);
        }
    }

    fn on_channel_or_thread_update(&mut self, guild: u64, data: &Json)
        requires
            old(self).wf(),
        ensures
            final(self).wf(),
            final(self).view() == old(self).view().changed(Event::ChannelUpdate, guild, data@),
    {
        if let Some(id) = data.text_at("id") {
            if let Some(mut json) = self.read_guild(guild) {
                update_channel(&mut json, id, data);
                self.write_guild(guild, &json);
            }
        }
    }

    fn on_channel_delete(&mut self, guild: u64, data: &Json)
        requires
            old(self).wf(),
        ensures
            final(self).wf(),
            final(self).view() == old(self).view().changed(Event::ChannelDelete, guild, data@),
    {
        if let Some(channel) = read_id(data) {
            self.channel_index.remove(&channel);
            assert(self.view().guilds == old(self).view().guilds);
            if let Some(mut json) = self.read_guild(guild) {
                remove_channel(&mut json, decimal_text(channel).as_str());
                self.write_guild(guild, &json);
            }
        }
    }

    fn on_thread_list_sync(&mut self, guild: u64, data: &Json)
        requires
            old(self).wf(),
        ensures
            final(self).wf(),
            final(self).view() == old(self).view().changed(Event::ThreadListSync, guild, data@),
    {
        if let Some(threads) = data.array_at("threads") {
            self.index_items(threads, guild);
            if let Some(mut json) = self.read_guild(guild) {
                json.set("threads", data.copy_at("threads"));
                self.write_guild(guild, &json);
            }
        }
    }

    fn on_role_upsert(&mut self, guild: u64, data: &Json)
        requires
            old(self).wf(),
        ensures
            final(self).wf(),
            final(self).view() == old(self).view().changed(Event::RoleUpsert, guild, data@),
    {
        let role = data.copy_at("role");
        if let Some(id) = role.text_at("id") {
            if let Some(mut json) = self.read_guild(guild) {
                upsert_item(&mut json, "roles", IdPlace::Own, id, &role);
                self.write_guild(guild, &json);
            }
        }
    }

    fn on_role_delete(&mut self, guild: u64, data: &Json)
        requires
            old(self).wf(),
        ensures
            final(self).wf(),
            final(self).view() == old(self).view().changed(Event::RoleDelete, guild, data@),
    {
        if let Some(id) = data.text_at("role_id") {
            if let Some(mut json) = self.read_guild(guild) {
                drop_item(&mut json, "roles", IdPlace::Own, id);
                self.write_guild(guild, &json);
            }
        }
    }

    fn on_voice_state_update(&mut self, guild: u64, data: &Json)
        requires
            old(self).wf(),
        ensures
            final(self).wf(),
            final(self).view() == old(self).view().changed(Event::VoiceStateUpdate, guild, data@),
    {
        if let Some(user) = data.text_at("user_id") {
            if let Some(mut json) = self.read_guild(guild) {
                // The voice states of a guild do not name the guild.
                let mut state = data.clone();
                state.unset("guild_id");
                update_voice_state(&mut json, user, state);
                self.write_guild(guild, &json);
            }
        }
    }

    fn on_members_chunk(&mut self, guild: u64, data: &Json)
        requires
            old(self).wf(),
        ensures
            final(self).wf(),
            final(self).view() == old(self).view().changed(Event::MembersChunk, guild, data@),
    {
        if let Some(members) = data.array_at("members") {
            if let Some(mut json) = self.read_guild(guild) {
                upsert_members(&mut json, members);
                self.write_guild(guild, &json);
            }
        }
    }

    fn on_member_upsert(&mut self, guild: u64, data: &Json)
        requires
            old(self).wf(),
        ensures
            final(self).wf(),
            final(self).view() == old(self).view().changed(Event::MemberUpsert, guild, data@),
    {
        // The members of a guild do not name the guild.
        let mut member = data.clone();
        member.unset("guild_id");
        if let Some(user) = IdPlace::User.read(&member) {
            if let Some(mut json) = self.read_guild(guild) {
                upsert_member(&mut json, user, &member);
                self.write_guild(guild, &json);
            }
        }
    }

    fn on_member_remove(&mut self, guild: u64, data: &Json)
        requires
            old(self).wf(),
        ensures
            final(self).wf(),
            final(self).view() == old(self).view().changed(Event::MemberRemove, guild, data@),
    {
        if let Some(user) = IdPlace::User.read(data) {
            if let Some(mut json) = self.read_guild(guild) {
                remove_member(&mut json, user);
                self.write_guild(guild, &json);
            }
        }
    }

    /// Replaces a member of the guild's JSON by that of the event.
    fn on_field_replace(&mut self, guild: u64, data: &Json, field: &str)
        requires
            old(self).wf(),
        ensures
            final(self).wf(),
            final(self).view() == old(self).view().field_replaced(guild, data@, field@),
    {
        if !data.null_at(field) {
            if let Some(mut json) = self.read_guild(guild) {
                json.set(field, data.copy_at(field));
                self.write_guild(guild, &json);
            }
        }
    }

    /// Records an event about a known guild.
    fn on_guild_event(&mut self, event: Event, guild: u64, data: &Json)
        requires
            old(self).wf(),
        ensures
            final(self).wf(),
            final(self).view() == old(self).view().changed(event, guild, data@),
    {
        match event {
            Event::GuildUpdate => self.on_guild_update(guild, data),
            Event::ChannelCreate => self.on_channel_add(guild, data, false),
            Event::ThreadCreate => self.on_channel_add(guild, data, true),
            Event::ChannelUpdate => self.on_channel_or_thread_update(guild, data),
            Event::ChannelDelete => self.on_channel_delete(guild, data),
            Event::ThreadListSync => self.on_thread_list_sync(guild, data),
            Event::RoleUpsert => self.on_role_upsert(guild, data),
            Event::RoleDelete => self.on_role_delete(guild, data),
            Event::EmojisUpdate => self.on_field_replace(guild, data, "emojis"),
            Event::StickersUpdate => self.on_field_replace(guild, data, "stickers"),
            Event::VoiceStateUpdate => self.on_voice_state_update(guild, data),
            Event::MemberUpsert => self.on_member_upsert(guild, data),
            Event::MemberRemove => self.on_member_remove(guild, data),
            Event::MembersChunk => self.on_members_chunk(guild, data),
            Event::GuildCreate | Event::GuildDelete => {},
        }
    }
}

/// How many guilds and channels are known.
pub struct GuildCacheStats {
    pub guilds: usize,
    pub channels: usize,
}

/// A payload for a client: the data, the opcode, the event's name and the
/// sequence number.
pub struct Payload<T> {
    pub d: T,
    pub op: u8,
    pub t: &'static str,
    pub s: usize,
}

/// The guild cache of a shard. Each guild is stored as the JSON that clients
/// receive, so that it is sent without being put together again.
pub struct Guilds {
    state: GuildState,
}

/// What a parsed payload holds.
pub open spec fn message_tree(message: Option<Json>) -> Option<JsonTree> {
    match message {
        Some(json) => Some(json@),
        None => None,
    }
}

/// The guilds that a client is authorized for.
pub open spec fn authorized_set(authorized: Option<&HashSet<u64>>) -> Option<Set<u64>> {
    match authorized {
        Some(set) => Some(set@),
        None => None,
    }
}

impl Guilds {
    pub closed spec fn view(self) -> CacheView {
        self.state.view()
    }

    #[verifier::type_invariant]
    spec fn inv(self) -> bool {
        self.state.wf()
    }

    /// The cache without guilds.
    pub fn new() -> (r: Guilds)
        ensures
            r@ == CacheView::empty(),
            r@.sound(),
    {
        Guilds { state: GuildState::new() }
    }

    /// How many guilds and channels are known.
    pub fn stats(&self) -> (r: GuildCacheStats)
        ensures
            r.guilds == self@.guilds.dom().len(),
            r.channels == self@.channels.dom().len(),
    {
        assert(self@.guilds.dom() =~= self.state.guilds@.dom());
        GuildCacheStats {
            guilds: self.state.guilds.len(),
            channels: self.state.channel_index.len(),
        }
    }

    /// The guild that a channel or thread belongs to.
    pub fn resolve_guild_id_for_channel(&self, channel_id: u64) -> (r: Option<u64>)
        ensures
            r == self@.channels.get(channel_id),
    {
        match self.state.channel_index.get(&channel_id) {
            Some(guild) => Some(*guild),
            None => None,
        }
    }

    /// Records a dispatch event, given its payload as text. An event that does
    /// not change what is known of a guild is passed over.
    pub fn process_event(&mut self, event_name: &str, payload: &str, guild_id: Option<u64>)
        ensures
            final(self)@ == old(self)@.after_named(event_name@, parsed_json(payload@), guild_id),
            final(self)@.sound(),
    {
        proof {
            use_type_invariant(&*self);
            self.state.lemma_sound();
        }
        if let Some(event) = event_of(event_name) {
            self.apply_event(event, parse_json(payload), guild_id);
        }
    }

    /// Records an event, given what its payload reads as, `None` where it does
    /// not read.
    pub fn apply_event(&mut self, event: Event, message: Option<Json>, guild_id: Option<u64>)
        ensures
            final(self)@ == old(self)@.after(event, message_tree(message), guild_id),
            final(self)@.sound(),
    {
        proof {
            use_type_invariant(&*self);
        }
        let mut state = GuildState::new();
        std::mem::swap(&mut state, &mut self.state);
        match (event, guild_id, message) {
            (Event::GuildCreate, _, Some(message)) => state.on_guild_create(&message.into_member("d")),
            (Event::GuildDelete, Some(guild), Some(message)) => {
                let unavailable = message.into_member("d").true_at("unavailable");
                state.on_guild_delete(guild, unavailable);
            },
            (Event::GuildDelete, Some(guild), None) => state.on_guild_delete(guild, false),
            (_, Some(guild), Some(message)) => state.on_guild_event(
                event,
                guild,
                &message.into_member("d"),
            ),
            _ => {},
        }
        proof {
            state.lemma_sound();
        }
        self.state = state;
    }

    /// The guilds that a client may see, in no particular order.
    fn visible_guilds(&self, authorized: Option<&HashSet<u64>>) -> (r: Vec<u64>)
        ensures
            enumerates(r@, visible(self@.guilds.dom(), authorized_set(authorized))),
    {
        let ghost known = self.state.guilds@.dom();
        let ghost set = visible(known, authorized_set(authorized));
        let mut out: Vec<u64> = Vec::new();
        assert(self@.guilds.dom() =~= known);
        for guild in it: self.state.guilds.keys()
            invariant
                set == visible(known, authorized_set(authorized)),
                it.seq().no_duplicates(),
                it.seq().unref().to_set() == known,
                it.seq().unref().len() == it.seq().len(),
                out@.no_duplicates(),
                forall|i: int| 0 <= i < out@.len() ==> set.contains(#[trigger] out@[i]),
                forall|i: int, j: int|
                    0 <= i < out@.len() && it.index() <= j < it.seq().len() ==> (
                    #[trigger] out@[i]) != *(#[trigger] it.seq()[j]),
                forall|g: u64| #[trigger]
                    set.contains(g) ==> out@.contains(g) || exists|j: int|
                        it.index() <= j < it.seq().len() && *(#[trigger] it.seq()[j]) == g,
        {
            let allowed = match authorized {
                Some(set) => set.contains(guild),
                None => true,
            };
            let ghost before = out@;
            assert(known.contains(*guild)) by {
                assert(it.seq().unref()[it.index()] == *guild);
                assert(it.seq().unref().contains(*guild));
            }
            if allowed {
                out.push(*guild);
                assert(out@[out@.len() - 1] == *it.seq()[it.index()]);
            }
            assert forall|g: u64| #[trigger] set.contains(g) implies out@.contains(g) || exists|
                j: int,
            |
                it.index() + 1 <= j < it.seq().len() && *(#[trigger] it.seq()[j]) == g by {
                if before.contains(g) {
                    let k = choose|k: int| 0 <= k < before.len() && before[k] == g;
                    assert(out@[k] == g);
                } else {
                    let j = choose|j: int|
                        it.index() <= j < it.seq().len() && *(#[trigger] it.seq()[j]) == g;
                    if j == it.index() {
                        assert(out@[out@.len() - 1] == g);
                    }
                }
            }
        }
        assert(out@.to_set() =~= set);
        out
    }

    /// The READY payload for a client, listing the guilds that it may see as
    /// out of reach until their own payloads come. The list has no particular
    /// order.
    pub fn get_ready_payload(
        &self,
        ready: JsonObject,
        sequence: &mut usize,
        authorized_guilds: Option<&HashSet<u64>>,
    ) -> (r: Payload<JsonObject>)
        requires
            *old(sequence) < usize::MAX,
        ensures
            *final(sequence) == *old(sequence) + 1,
            exists|order: Seq<u64>|
                enumerates(order, visible(self@.guilds.dom(), authorized_set(authorized_guilds)))
                    && #[trigger] is_ready_payload(r, ready@, order, *final(sequence)),
    {
        let order = self.visible_guilds(authorized_guilds);
        ready_payload(ready, &order, sequence)
    }

    /// The payloads by which a connecting client learns of the guilds that it
    /// may see, each numbered on from the last one as it is taken. They have no
    /// particular order.
    pub fn get_guild_payloads<'a>(
        &self,
        sequence: &'a mut usize,
        authorized_guilds: Option<&HashSet<u64>>,
    ) -> (r: GuildPayloads<'a>)
        ensures
            exists|order: Seq<u64>|
                enumerates(order, visible(self@.guilds.dom(), authorized_set(authorized_guilds)))
                    && r@ == #[trigger] self@.all_pending(order),
            *r.sequence == *old(sequence),
            *final(r.sequence) == *final(sequence),
    {
        let order = self.visible_guilds(authorized_guilds);
        assert forall|i: int| 0 <= i < order@.len() implies self@.guilds.contains_key(
            #[trigger] order@[i],
        ) by {
            assert(order@.to_set().contains(order@[i]));
        }
        self.guild_payloads(&order, sequence)
    }

    /// The payloads by which a client learns of the given guilds, in order and
    /// each numbered on from the last one as it is taken.
    pub fn guild_payloads<'a>(&self, order: &Vec<u64>, sequence: &'a mut usize) -> (r:
        GuildPayloads<'a>)
        requires
            forall|i: int|
                0 <= i < order@.len() ==> self@.guilds.contains_key(#[trigger] order@[i]),
        ensures
            r@ == self@.all_pending(order@),
            *r.sequence == *old(sequence),
            *final(r.sequence) == *final(sequence),
    {
        proof {
            use_type_invariant(self);
        }
        let mut entries: VecDeque<PendingGuild> = VecDeque::new();
        let mut i: usize = 0;
        while i < order.len()
            invariant
                self.state.wf(),
                i <= order@.len(),
                forall|k: int|
                    0 <= k < order@.len() ==> self@.guilds.contains_key(#[trigger] order@[k]),
                i == entries@.len(),
                forall|k: int|
                    0 <= k < i ==> (#[trigger] entries@[k])@ == self@.pending(order@[k]),
            decreases order.len() - i,
        {
            assert(self@.guilds.contains_key(order@[i as int]));
            if let Some(entry) = self.state.guilds.get(&order[i]) {
                entries.push_back(entry.pending(order[i]));
            }
            i += 1;
        }
        let r = GuildPayloads { entries, sequence };
        assert(r@ =~= self@.all_pending(order@));
        r
    }
}

/// A guild that a client is yet to learn of.
pub struct PendingGuild {
    pub guild: u64,
    /// The JSON of the guild as clients receive it.
    pub json: String,
    pub unavailable: bool,
}

impl PendingGuild {
    pub open spec fn view(self) -> PendingView {
        PendingView { guild: self.guild, json: self.json@, unavailable: self.unavailable }
    }

    /// The payload by which a client learns of the guild.
    pub fn payload(&self, sequence: usize) -> (r: String)
        ensures
            r@ == guild_payload(self@, sequence as nat),
    {
        let number = decimal_text(sequence as u64);
        let mut out = String::new();
        if self.unavailable {
            out.append("{\"op\":0,\"t\":\"GUILD_DELETE\",\"s\":");
            out.append(number.as_str());
            out.append(",\"d\":{\"id\":\"");
            out.append(decimal_text(self.guild).as_str());
            out.append("\",\"unavailable\":true}}");
        } else {
            out.append("{\"op\":0,\"t\":\"GUILD_CREATE\",\"s\":");
            out.append(number.as_str());
            out.append(",\"d\":");
            out.append(self.json.as_str());
            out.append("}");
        }
        assert(out@ =~= guild_payload(self@, sequence as nat));
        out
    }
}

/// The payloads that a client has not taken yet. Each gets its number when it is
/// taken, so that a client who stops early leaves no gap.
pub struct GuildPayloads<'a> {
    pub entries: VecDeque<PendingGuild>,
    /// The number of the last payload.
    pub sequence: &'a mut usize,
}

impl<'a> GuildPayloads<'a> {
    pub open spec fn view(self) -> Seq<PendingView> {
        self.entries@.map_values(|entry: PendingGuild| entry@)
    }

    /// Takes the next payload.
    pub fn next(&mut self) -> (r: Option<String>)
        requires
            old(self)@.len() > 0 ==> *old(self).sequence < usize::MAX,
        ensures
            match r {
                Some(payload) => {
                    &&& old(self)@.len() > 0
                    &&& payload@ == guild_payload(old(self)@[0], (*old(self).sequence + 1) as nat)
                    &&& final(self)@ == old(self)@.skip(1)
                    &&& *final(self).sequence == *old(self).sequence + 1
                },
                None => {
                    &&& old(self)@.len() == 0
                    &&& final(self)@ == old(self)@
                    &&& *final(self).sequence == *old(self).sequence
                },
            },
            *final(final(self).sequence) == *final(old(self).sequence),
    {
        match self.entries.pop_front() {
            Some(entry) => {
                assert(old(self)@[0] == entry@);
                *self.sequence = *self.sequence + 1;
                assert(self@ =~= old(self)@.skip(1));
                Some(entry.payload(*self.sequence))
            },
            None => None,
        }
    }
}

/// Whether a payload is the READY payload that lists the given guilds in order.
pub open spec fn is_ready_payload(
    payload: Payload<JsonObject>,
    ready: Map<Seq<char>, JsonTree>,
    order: Seq<u64>,
    sequence: usize,
) -> bool {
    &&& payload.d@ == ready.insert(
        "guilds"@,
        JsonTree::Array(order.map_values(|g: u64| ready_entry(g))),
    )
    &&& payload.op == 0
    &&& payload.t@ == "READY"@
    &&& payload.s == sequence
}

/// The entry for a guild in the list of a READY payload.
fn unavailable_guild(guild: u64) -> (r: Json)
    ensures
        r@ == ready_entry(guild),
{
    let mut object = JsonObject::new();
    object.insert("id".to_owned(), Json::Text(decimal_text(guild)));
    object.insert("unavailable".to_owned(), Json::Bool(true));
    Json::Object(object)
}

/// The READY payload that lists the given guilds in order.
pub fn ready_payload(ready: JsonObject, order: &Vec<u64>, sequence: &mut usize) -> (r: Payload<
    JsonObject,
>)
    requires
        *old(sequence) < usize::MAX,
    ensures
        *final(sequence) == *old(sequence) + 1,
        is_ready_payload(r, ready@, order@, *final(sequence)),
{
    *sequence = *sequence + 1;
    let mut guilds: Vec<Json> = Vec::new();
    let mut i: usize = 0;
    assert(trees(guilds@) =~= order@.take(0).map_values(|g: u64| ready_entry(g)));
    while i < order.len()
        invariant
            i <= order@.len(),
            trees(guilds@) == order@.take(i as int).map_values(|g: u64| ready_entry(g)),
        decreases order.len() - i,
    {
        let entry = unavailable_guild(order[i]);
        proof {
            lemma_trees_push(guilds@, entry);
        }
        guilds.push(entry);
        assert(trees(guilds@) =~= order@.take(i + 1).map_values(|g: u64| ready_entry(g)));
        i += 1;
    }
    assert(order@.take(order@.len() as int) =~= order@);
    let mut d = ready;
    d.insert("guilds".to_owned(), Json::Array(guilds));
    Payload { d, op: 0, t: "READY", s: *sequence }
}

} // verus!
