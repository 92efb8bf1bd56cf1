//! The guild cache as a mathematical state, and what each event makes of it.
use crate::codec::{parsed_json, printed_json, reads_back};
use crate::guild::{
    channel_added, channel_removed, channel_updated, fields_merged, item_dropped, item_upserted,
    member_removed, member_upserted, members_upserted, voice_state_updated,
};
use crate::items::IdPlace;
use crate::json::JsonTree;
use crate::text::{decimal, number_of};
use vstd::prelude::*;

verus! {

/// The dispatch events that change what is known of a guild.
#[derive(Clone, Copy)]
pub enum Event {
    GuildCreate,
    GuildUpdate,
    GuildDelete,
    ChannelCreate,
    ThreadCreate,
    ChannelUpdate,
    ChannelDelete,
    ThreadListSync,
    RoleUpsert,
    RoleDelete,
    EmojisUpdate,
    StickersUpdate,
    VoiceStateUpdate,
    MemberUpsert,
    MemberRemove,
    MembersChunk,
}

/// The event that a name stands for; `None` for those that change nothing.
pub open spec fn event_named(name: Seq<char>) -> Option<Event> {
    if name == "GUILD_CREATE"@ {
        Some(Event::GuildCreate)
    } else if name == "GUILD_UPDATE"@ {
        Some(Event::GuildUpdate)
    } else if name == "GUILD_DELETE"@ {
        Some(Event::GuildDelete)
    } else if name == "CHANNEL_CREATE"@ {
        Some(Event::ChannelCreate)
    } else if name == "THREAD_CREATE"@ {
        Some(Event::ThreadCreate)
    } else if name == "CHANNEL_UPDATE"@ || name == "THREAD_UPDATE"@ {
        Some(Event::ChannelUpdate)
    } else if name == "CHANNEL_DELETE"@ || name == "THREAD_DELETE"@ {
        Some(Event::ChannelDelete)
    } else if name == "THREAD_LIST_SYNC"@ {
        Some(Event::ThreadListSync)
    } else if name == "ROLE_CREATE"@ || name == "ROLE_UPDATE"@ {
        Some(Event::RoleUpsert)
    } else if name == "ROLE_DELETE"@ {
        Some(Event::RoleDelete)
    } else if name == "GUILD_EMOJIS_UPDATE"@ {
        Some(Event::EmojisUpdate)
    } else if name == "GUILD_STICKERS_UPDATE"@ {
        Some(Event::StickersUpdate)
    } else if name == "VOICE_STATE_UPDATE"@ {
        Some(Event::VoiceStateUpdate)
    } else if name == "GUILD_MEMBER_ADD"@ || name == "GUILD_MEMBER_UPDATE"@ {
        Some(Event::MemberUpsert)
    } else if name == "GUILD_MEMBER_REMOVE"@ {
        Some(Event::MemberRemove)
    } else if name == "GUILD_MEMBERS_CHUNK"@ {
        Some(Event::MembersChunk)
    } else {
        None
    }
}

/// What is stored of a guild: its JSON, and whether it is out of reach.
pub struct EntryView {
    pub tree: JsonTree,
    pub unavailable: bool,
}

/// The guilds by id, and the guild of each known channel and thread.
#[verifier::ext_equal]
pub struct CacheView {
    pub guilds: Map<u64, EntryView>,
    pub channels: Map<u64, u64>,
}

/// The number that the member `id` of a value stands for.
pub open spec fn id_number(item: JsonTree) -> Option<u64> {
    match item.at("id"@).as_text() {
        Some(text) => number_of(text),
        None => None,
    }
}

/// Whether one of the items has the id `channel`.
pub open spec fn names(items: Seq<JsonTree>, channel: u64) -> bool {
    exists|i: int| 0 <= i < items.len() && id_number(#[trigger] items[i]) == Some(channel)
}

/// The index with each of the items pointing to the guild.
pub open spec fn indexed(
    channels: Map<u64, u64>,
    items: Seq<JsonTree>,
    guild: u64,
) -> Map<u64, u64> {
    channels.union_prefer_right(Map::new(|c: u64| names(items, c), |c: u64| guild))
}

/// The index with each item of the array `key` pointing to the guild.
pub open spec fn array_indexed(
    channels: Map<u64, u64>,
    data: JsonTree,
    key: Seq<char>,
    guild: u64,
) -> Map<u64, u64> {
    match data.at(key).as_array() {
        Some(items) => indexed(channels, items, guild),
        None => channels,
    }
}

impl CacheView {
    /// The cache without guilds.
    pub open spec fn empty() -> CacheView {
        CacheView { guilds: Map::empty(), channels: Map::empty() }
    }

    /// What the stored text of a guild reads as.
    pub open spec fn guild_tree(self, guild: u64) -> Option<JsonTree> {
        if self.guilds.contains_key(guild) {
            parsed_json(printed_json(self.guilds[guild].tree))
        } else {
            None
        }
    }

    /// The cache with a guild's JSON read, changed and written again. A guild
    /// that is not known, or does not read, stays as it is.
    pub open spec fn edited(self, guild: u64, edit: spec_fn(JsonTree) -> JsonTree) -> CacheView {
        match self.guild_tree(guild) {
            Some(tree) => CacheView {
                guilds: self.guilds.insert(
                    guild,
                    EntryView { tree: edit(tree), ..self.guilds[guild] },
                ),
                channels: self.channels,
            },
            None => self,
        }
    }

    /// A guild comes into reach, or is known from the start.
    pub open spec fn guild_created(self, data: JsonTree) -> CacheView {
        match id_number(data) {
            Some(guild) => CacheView {
                guilds: self.guilds.insert(
                    guild,
                    EntryView { tree: data, unavailable: data.at("unavailable"@).is_true() },
                ),
                channels: array_indexed(
                    array_indexed(self.channels, data, "channels"@, guild),
                    data,
                    "threads"@,
                    guild,
                ),
            },
            None => self,
        }
    }

    /// A guild goes out of reach for a while, or for good.
    pub open spec fn guild_deleted(self, guild: u64, unavailable: bool) -> CacheView {
        if unavailable {
            if self.guilds.contains_key(guild) {
                CacheView {
                    guilds: self.guilds.insert(
                        guild,
                        EntryView { unavailable: true, ..self.guilds[guild] },
                    ),
                    channels: self.channels,
                }
            } else {
                self
            }
        } else {
            CacheView {
                guilds: self.guilds.remove(guild),
                channels: Map::new(
                    |c: u64| self.channels.contains_key(c) && self.channels[c] != guild,
                    |c: u64| self.channels[c],
                ),
            }
        }
    }

    /// A channel, or thread, is created.
    pub open spec fn channel_created(
        self,
        guild: u64,
        key: Seq<char>,
        channel: JsonTree,
    ) -> CacheView {
        match (channel.at("id"@).as_text(), id_number(channel)) {
            (Some(id), Some(number)) => CacheView {
                guilds: self.guilds,
                channels: self.channels.insert(number, guild),
            }.edited(guild, |t: JsonTree| channel_added(t, key, id, channel)),
            _ => self,
        }
    }

    /// A channel or thread is deleted.
    pub open spec fn channel_deleted(self, guild: u64, channel: JsonTree) -> CacheView {
        match id_number(channel) {
            Some(number) => CacheView {
                guilds: self.guilds,
                channels: self.channels.remove(number),
            }.edited(guild, |t: JsonTree| channel_removed(t, decimal(number as nat))),
            None => self,
        }
    }

    /// The guild's active threads are listed anew.
    pub open spec fn threads_synced(self, guild: u64, data: JsonTree) -> CacheView {
        match data.at("threads"@).as_array() {
            Some(threads) => CacheView {
                guilds: self.guilds,
                channels: indexed(self.channels, threads, guild),
            }.edited(guild, |t: JsonTree| t.with("threads"@, JsonTree::Array(threads))),
            None => self,
        }
    }

    /// A member of the guild's JSON is replaced by that of the event.
    pub open spec fn field_replaced(self, guild: u64, data: JsonTree, key: Seq<char>) -> CacheView {
        if data.at(key) is Null {
            self
        } else {
            self.edited(guild, |t: JsonTree| t.with(key, data.at(key)))
        }
    }

    /// What an event with the data `data` makes of the guild it is about.
    pub open spec fn changed(self, event: Event, guild: u64, data: JsonTree) -> CacheView {
        match event {
            Event::GuildUpdate => self.edited(guild, |t: JsonTree| fields_merged(t, data)),
            Event::ChannelCreate => self.channel_created(guild, "channels"@, data),
            Event::ThreadCreate => self.channel_created(guild, "threads"@, data),
            Event::ChannelUpdate => match data.at("id"@).as_text() {
                Some(id) => self.edited(guild, |t: JsonTree| channel_updated(t, id, data)),
                None => self,
            },
            Event::ChannelDelete => self.channel_deleted(guild, data),
            Event::ThreadListSync => self.threads_synced(guild, data),
            Event::RoleUpsert => match data.at("role"@).at("id"@).as_text() {
                Some(id) => self.edited(
                    guild,
                    |t: JsonTree|
                        item_upserted(t, "roles"@, IdPlace::Own, id, data.at("role"@)),
                ),
                None => self,
            },
            Event::RoleDelete => match data.at("role_id"@).as_text() {
                Some(id) => self.edited(
                    guild,
                    |t: JsonTree| item_dropped(t, "roles"@, IdPlace::Own, id),
                ),
                None => self,
            },
            Event::EmojisUpdate => self.field_replaced(guild, data, "emojis"@),
            Event::StickersUpdate => self.field_replaced(guild, data, "stickers"@),
            Event::VoiceStateUpdate => match data.at("user_id"@).as_text() {
                Some(user) => self.edited(
                    guild,
                    |t: JsonTree| voice_state_updated(t, user, data.without("guild_id"@)),
                ),
                None => self,
            },
            Event::MemberUpsert => match IdPlace::User.id_of(data.without("guild_id"@)) {
                Some(user) => self.edited(
                    guild,
                    |t: JsonTree| member_upserted(t, user, data.without("guild_id"@)),
                ),
                None => self,
            },
            Event::MemberRemove => match IdPlace::User.id_of(data) {
                Some(user) => self.edited(guild, |t: JsonTree| member_removed(t, user)),
                None => self,
            },
            Event::MembersChunk => match data.at("members"@).as_array() {
                Some(members) => self.edited(
                    guild,
                    |t: JsonTree| members_upserted(t, members),
                ),
                None => self,
            },
            Event::GuildCreate | Event::GuildDelete => self,
        }
    }

    /// What an event makes of the cache, given what its payload reads as.
    pub open spec fn after(
        self,
        event: Event,
        message: Option<JsonTree>,
        guild: Option<u64>,
    ) -> CacheView {
        match (event, guild, message) {
            (Event::GuildCreate, _, Some(message)) => self.guild_created(message.at("d"@)),
            (Event::GuildDelete, Some(guild), Some(message)) => self.guild_deleted(
                guild,
                message.at("d"@).at("unavailable"@).is_true(),
            ),
            (Event::GuildDelete, Some(guild), None) => self.guild_deleted(guild, false),
            (_, Some(guild), Some(message)) => self.changed(event, guild, message.at("d"@)),
            _ => self,
        }
    }

    /// What an event of the given name makes of the cache.
    pub open spec fn after_named(
        self,
        name: Seq<char>,
        message: Option<JsonTree>,
        guild: Option<u64>,
    ) -> CacheView {
        match event_named(name) {
            Some(event) => self.after(event, message, guild),
            None => self,
        }
    }

    /// Whether every guild is an object whose text reads back as the object, but
    /// for its real numbers.
    pub open spec fn sound(self) -> bool {
        forall|guild: u64| #[trigger]
            self.guilds.contains_key(guild) ==> storable(self.guilds[guild].tree)
    }
}

/// What the guilds are that a client may see: all, or those it is authorized for.
pub open spec fn visible(known: Set<u64>, authorized: Option<Set<u64>>) -> Set<u64> {
    match authorized {
        Some(set) => known.intersect(set),
        None => known,
    }
}

/// The entry for a guild in the list of a READY payload.
pub open spec fn ready_entry(guild: u64) -> JsonTree {
    JsonTree::Object(
        Map::empty().insert("id"@, JsonTree::Text(decimal(guild as nat))).insert(
            "unavailable"@,
            JsonTree::Bool(true),
        ),
    )
}

/// A guild that a client is yet to learn of: the text of its JSON, and whether it
/// is out of reach.
pub struct PendingView {
    pub guild: u64,
    pub json: Seq<char>,
    pub unavailable: bool,
}

/// The payload by which a client learns of a guild.
pub open spec fn guild_payload(pending: PendingView, sequence: nat) -> Seq<char> {
    if pending.unavailable {
        "{\"op\":0,\"t\":\"GUILD_DELETE\",\"s\":"@ + decimal(sequence) + ",\"d\":{\"id\":\""@
            + decimal(pending.guild as nat) + "\",\"unavailable\":true}}"@
    } else {
        "{\"op\":0,\"t\":\"GUILD_CREATE\",\"s\":"@ + decimal(sequence) + ",\"d\":"@ + pending.json
            + "}"@
    }
}

impl CacheView {
    /// What a client is yet to learn of a known guild.
    pub open spec fn pending(self, guild: u64) -> PendingView {
        PendingView {
            guild,
            json: printed_json(self.guilds[guild].tree),
            unavailable: self.guilds[guild].unavailable,
        }
    }

    /// What a client is yet to learn of some known guilds.
    pub open spec fn all_pending(self, order: Seq<u64>) -> Seq<PendingView> {
        order.map_values(|guild: u64| self.pending(guild))
    }
}

/// Whether a list holds each of some guilds once.
pub open spec fn enumerates(order: Seq<u64>, guilds: Set<u64>) -> bool {
    &&& order.no_duplicates()
    &&& order.to_set() == guilds
}

/// Whether a tree is an object whose text reads back as the object, but for its
/// real numbers.
pub open spec fn storable(tree: JsonTree) -> bool {
    tree is Object && reads_back(printed_json(tree), tree)
}

} // verus!
