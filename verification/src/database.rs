//! The cached channel/game/target store.
//!
//! `Database` models the persistent tables (`channel`, `game`, `target`) together
//! with the write-through caches that front them: per-channel game and target
//! sets with their limits, the pinned message and notified role slots, the
//! per-guild channel limit, and the safe-delete protocol that refuses to drop
//! a channel while another holder still works on it.

use crate::collections::{IdMap, IdSet};
use crate::concurrent::{dash_set_contains, dash_set_ids, dash_set_insert, dash_set_new,
    dash_set_remove};
use crate::constants::{CHANNEL_LIMIT, GAME_LIMIT, TARGET_LIMIT};
use crate::text::dec_seq;
use crate::text::u64_to_string;
use crate::CommandError;
use vstd::prelude::*;

verus! {

/// Why a game insertion failed.
#[derive(Debug)]
pub enum GameInsertError {
    Database(String),
    LimitExceeded(usize),
    GameListEmpty,
    GamesNotInserted,
}

/// Why a target insertion failed.
#[derive(Debug)]
pub enum TargetInsertError {
    Database(String),
    LimitExceeded(usize),
    TargetListEmpty,
    TargetsNotInserted,
}

/// Why a channel deletion failed.
#[derive(Debug)]
pub enum ChannelDeleteError {
    Database(String),
    OperationPending,
}

/// Why a game removal failed.
#[derive(Debug)]
pub enum GameDeleteError {
    Database(String),
    GamesNotDeleted,
}

/// Why a target removal failed.
#[derive(Debug)]
pub enum TargetDeleteError {
    Database(String),
    TargetsNotDeleted,
}

/// Why a channel lookup failed.
#[derive(Debug)]
pub enum ChannelGetError {
    Database(String),
    NotInitialized,
}

/// Why a channel initialization failed.
#[derive(Debug)]
pub enum ChannelInitializeError {
    Database(String),
    AlreadyInitialized,
    LimitExceeded(usize),
}

impl GameInsertError {
    /// The user-readable text of this error.
    pub open spec fn message_seq(&self) -> Seq<char> {
        match self {
            GameInsertError::Database(s) => "database error: "@ + s@,
            GameInsertError::LimitExceeded(n) => "Game limit exceeded (games after adding: "@
                + dec_seq(*n as int) + "/"@ + dec_seq(GAME_LIMIT as int) + ")."@,
            GameInsertError::GameListEmpty => "Provided game list is empty."@,
            GameInsertError::GamesNotInserted => "All the provided games were already in the tracker list."@,
        }
    }

    pub fn message(&self) -> (r: String)
        ensures
            r@ == self.message_seq(),
    {
        let mut r = String::new();
        match self {
            GameInsertError::Database(s) => {
                r.append("database error: ");
                r.append(s.as_str());
            },
            GameInsertError::LimitExceeded(n) => {
                r.append("Game limit exceeded (games after adding: ");
                let count = u64_to_string(*n as u64);
                r.append(count.as_str());
                r.append("/");
                let limit = u64_to_string(GAME_LIMIT as u64);
                r.append(limit.as_str());
                r.append(").");
            },
            GameInsertError::GameListEmpty => {
                r.append("Provided game list is empty.");
            },
            GameInsertError::GamesNotInserted => {
                r.append("All the provided games were already in the tracker list.");
            },
        }
        proof {
            assert(r@ =~= self.message_seq());
        }
        r
    }

    /// How the command surface classifies this error: database failures are
    /// unexpected, the rest are expected and shown as-is.
    pub fn to_command_error(self) -> (r: CommandError)
        ensures
            self matches GameInsertError::Database(s) ==> (r matches CommandError::Unexpected(m)
                && m@ == s@),
            !(self is Database) ==> (r matches CommandError::Expected(m) && m@
                == self.message_seq()),
    {
        match self {
            GameInsertError::Database(s) => CommandError::Unexpected(s),
            other => CommandError::Expected(other.message()),
        }
    }
}

impl TargetInsertError {
    /// The user-readable text of this error.
    pub open spec fn message_seq(&self) -> Seq<char> {
        match self {
            TargetInsertError::Database(s) => "database error: "@ + s@,
            TargetInsertError::LimitExceeded(n) => "Target limit exceeded (targets after adding: "@
                + dec_seq(*n as int) + "/"@ + dec_seq(TARGET_LIMIT as int) + ")."@,
            TargetInsertError::TargetListEmpty => "Provided target list is empty."@,
            TargetInsertError::TargetsNotInserted => "All the provided targets were already in the tracker list."@,
        }
    }

    pub fn message(&self) -> (r: String)
        ensures
            r@ == self.message_seq(),
    {
        let mut r = String::new();
        match self {
            TargetInsertError::Database(s) => {
                r.append("database error: ");
                r.append(s.as_str());
            },
            TargetInsertError::LimitExceeded(n) => {
                r.append("Target limit exceeded (targets after adding: ");
                let count = u64_to_string(*n as u64);
                r.append(count.as_str());
                r.append("/");
                let limit = u64_to_string(TARGET_LIMIT as u64);
                r.append(limit.as_str());
                r.append(").");
            },
            TargetInsertError::TargetListEmpty => {
                r.append("Provided target list is empty.");
            },
            TargetInsertError::TargetsNotInserted => {
                r.append("All the provided targets were already in the tracker list.");
            },
        }
        proof {
            assert(r@ =~= self.message_seq());
        }
        r
    }

    /// How the command surface classifies this error.
    pub fn to_command_error(self) -> (r: CommandError)
        ensures
            self matches TargetInsertError::Database(s) ==> (r matches CommandError::Unexpected(m)
                && m@ == s@),
            !(self is Database) ==> (r matches CommandError::Expected(m) && m@
                == self.message_seq()),
    {
        match self {
            TargetInsertError::Database(s) => CommandError::Unexpected(s),
            other => CommandError::Expected(other.message()),
        }
    }
}

impl ChannelDeleteError {
    /// The user-readable text of this error.
    pub open spec fn message_seq(&self) -> Seq<char> {
        match self {
            ChannelDeleteError::Database(s) => "database error: "@ + s@,
            ChannelDeleteError::OperationPending => "There are still operations running on this channel's tracker."@,
        }
    }

    pub fn message(&self) -> (r: String)
        ensures
            r@ == self.message_seq(),
    {
        let mut r = String::new();
        match self {
            ChannelDeleteError::Database(s) => {
                r.append("database error: ");
                r.append(s.as_str());
            },
            ChannelDeleteError::OperationPending => {
                r.append("There are still operations running on this channel's tracker.");
            },
        }
        proof {
            assert(r@ =~= self.message_seq());
        }
        r
    }

    /// How the command surface classifies this error.
    pub fn to_command_error(self) -> (r: CommandError)
        ensures
            self matches ChannelDeleteError::Database(s) ==> (r matches CommandError::Unexpected(m)
                && m@ == s@),
            self is OperationPending ==> (r matches CommandError::Expected(m) && m@
                == self.message_seq()),
    {
        match self {
            ChannelDeleteError::Database(s) => CommandError::Unexpected(s),
            other => CommandError::Expected(other.message()),
        }
    }
}

impl GameDeleteError {
    /// The user-readable text of this error.
    pub open spec fn message_seq(&self) -> Seq<char> {
        match self {
            GameDeleteError::Database(s) => "database error: "@ + s@,
            GameDeleteError::GamesNotDeleted => "No games were deleted by this command."@,
        }
    }

    pub fn message(&self) -> (r: String)
        ensures
            r@ == self.message_seq(),
    {
        let mut r = String::new();
        match self {
            GameDeleteError::Database(s) => {
                r.append("database error: ");
                r.append(s.as_str());
            },
            GameDeleteError::GamesNotDeleted => {
                r.append("No games were deleted by this command.");
            },
        }
        proof {
            assert(r@ =~= self.message_seq());
        }
        r
    }

    /// How the command surface classifies this error.
    pub fn to_command_error(self) -> (r: CommandError)
        ensures
            self matches GameDeleteError::Database(s) ==> (r matches CommandError::Unexpected(m)
                && m@ == s@),
            self is GamesNotDeleted ==> (r matches CommandError::Expected(m) && m@
                == self.message_seq()),
    {
        match self {
            GameDeleteError::Database(s) => CommandError::Unexpected(s),
            other => CommandError::Expected(other.message()),
        }
    }
}

impl TargetDeleteError {
    /// The user-readable text of this error.
    pub open spec fn message_seq(&self) -> Seq<char> {
        match self {
            TargetDeleteError::Database(s) => "database error: "@ + s@,
            TargetDeleteError::TargetsNotDeleted => "No targets were deleted by this command."@,
        }
    }

    pub fn message(&self) -> (r: String)
        ensures
            r@ == self.message_seq(),
    {
        let mut r = String::new();
        match self {
            TargetDeleteError::Database(s) => {
                r.append("database error: ");
                r.append(s.as_str());
            },
            TargetDeleteError::TargetsNotDeleted => {
                r.append("No targets were deleted by this command.");
            },
        }
        proof {
            assert(r@ =~= self.message_seq());
        }
        r
    }

    /// How the command surface classifies this error.
    pub fn to_command_error(self) -> (r: CommandError)
        ensures
            self matches TargetDeleteError::Database(s) ==> (r
                matches CommandError::Unexpected(m) && m@ == s@),
            self is TargetsNotDeleted ==> (r matches CommandError::Expected(m) && m@
                == self.message_seq()),
    {
        match self {
            TargetDeleteError::Database(s) => CommandError::Unexpected(s),
            other => CommandError::Expected(other.message()),
        }
    }
}

impl ChannelGetError {
    /// The user-readable text of this error.
    pub open spec fn message_seq(&self) -> Seq<char> {
        match self {
            ChannelGetError::Database(s) => "database error occurred: "@ + s@,
            ChannelGetError::NotInitialized => "The tracker hasn't been initialized in this channel."@,
        }
    }

    pub fn message(&self) -> (r: String)
        ensures
            r@ == self.message_seq(),
    {
        let mut r = String::new();
        match self {
            ChannelGetError::Database(s) => {
                r.append("database error occurred: ");
                r.append(s.as_str());
            },
            ChannelGetError::NotInitialized => {
                r.append("The tracker hasn't been initialized in this channel.");
            },
        }
        proof {
            assert(r@ =~= self.message_seq());
        }
        r
    }

    /// How the command surface classifies this error.
    pub fn to_command_error(self) -> (r: CommandError)
        ensures
            self matches ChannelGetError::Database(s) ==> (r matches CommandError::Unexpected(m)
                && m@ == s@),
            self is NotInitialized ==> (r matches CommandError::Expected(m) && m@
                == self.message_seq()),
    {
        match self {
            ChannelGetError::Database(s) => CommandError::Unexpected(s),
            other => CommandError::Expected(other.message()),
        }
    }
}

impl ChannelInitializeError {
    /// The user-readable text of this error.
    pub open spec fn message_seq(&self) -> Seq<char> {
        match self {
            ChannelInitializeError::Database(s) => "database error occurred: "@ + s@,
            ChannelInitializeError::AlreadyInitialized => "The tracker has already been initialized in this channel."@,
            ChannelInitializeError::LimitExceeded(n) => "Tracker channel limit exceeded (channels after initializing: "@
                + dec_seq(*n as int) + "/"@ + dec_seq(CHANNEL_LIMIT as int) + ")."@,
        }
    }

    pub fn message(&self) -> (r: String)
        ensures
            r@ == self.message_seq(),
    {
        let mut r = String::new();
        match self {
            ChannelInitializeError::Database(s) => {
                r.append("database error occurred: ");
                r.append(s.as_str());
            },
            ChannelInitializeError::AlreadyInitialized => {
                r.append("The tracker has already been initialized in this channel.");
            },
            ChannelInitializeError::LimitExceeded(n) => {
                r.append("Tracker channel limit exceeded (channels after initializing: ");
                let count = u64_to_string(*n as u64);
                r.append(count.as_str());
                r.append("/");
                let limit = u64_to_string(CHANNEL_LIMIT as u64);
                r.append(limit.as_str());
                r.append(").");
            },
        }
        proof {
            assert(r@ =~= self.message_seq());
        }
        r
    }

    /// How the command surface classifies this error.
    pub fn to_command_error(self) -> (r: CommandError)
        ensures
            self matches ChannelInitializeError::Database(s) ==> (r
                matches CommandError::Unexpected(m) && m@ == s@),
            !(self is Database) ==> (r matches CommandError::Expected(m) && m@
                == self.message_seq()),
    {
        match self {
            ChannelInitializeError::Database(s) => CommandError::Unexpected(s),
            other => CommandError::Expected(other.message()),
        }
    }
}

} // verus!

verus! {

/// A snapshot of one channel's configuration, handed out by `get_channel`.
/// Holding one counts as a live reference for the safe-delete protocol.
#[derive(Clone, Copy)]
pub struct CachedChannel {
    pub channel: u64,
    pub guild: u64,
    pub message: Option<u64>,
    pub notified_role: Option<u64>,
}

impl CachedChannel {
    pub fn id(&self) -> (r: u64)
        ensures
            r == self.channel,
    {
        self.channel
    }

    pub fn guild(&self) -> (r: u64)
        ensures
            r == self.guild,
    {
        self.guild
    }

    pub fn message(&self) -> (r: Option<u64>)
        ensures
            r == self.message,
    {
        self.message
    }

    pub fn notified_role(&self) -> (r: Option<u64>)
        ensures
            r == self.notified_role,
    {
        self.notified_role
    }

    /// Consumes this snapshot to run the safe-delete protocol on its channel.
    pub fn delete_channel(self, db: &mut Database) -> (r: Result<(), ChannelDeleteError>)
        requires
            old(db).wf(),
            old(db).holders_of(self.channel) >= 1,
        ensures
            final(db).wf(),
            Database::unchanged_except(old(db), final(db), self.channel),
            final(db).holders_of(self.channel) == old(db).holders_of(self.channel) - 1,
            r is Ok <==> old(db).holders_of(self.channel) == 1,
            r is Ok ==> !final(db).has_channel(self.channel),
            r is Err ==> r == Err::<(), ChannelDeleteError>(ChannelDeleteError::OperationPending)
                && Database::channel_eq(old(db), final(db), self.channel),
    {
        db.delete_channel(self.channel)
    }
}

/// One tracked channel: its guild, pinned message and notified role slots,
/// and the watched game and target sets with their limits.
pub struct ChannelRecord {
    pub guild: u64,
    pub message: Option<u64>,
    pub notified_role: Option<u64>,
    pub games: IdSet,
    pub targets: IdSet,
}

impl ChannelRecord {
    pub open spec fn wf(&self) -> bool {
        &&& self.games.wf()
        &&& self.targets.wf()
        &&& self.games@.len() <= GAME_LIMIT
        &&& self.targets@.len() <= TARGET_LIMIT
    }
}

/// The cached store over the channel, game and target tables.
pub struct Database {
    channels: IdMap<ChannelRecord>,
    holders: IdMap<u64>,
    deleting: dashmap::DashSet<u64, ahash::RandomState>,
}

impl Database {
    /// The channel row exists.
    pub closed spec fn has_channel(&self, c: u64) -> bool {
        self.channels@.contains_key(c)
    }

    /// The channel rows in storage order.
    pub closed spec fn key_order(&self) -> Seq<u64> {
        self.channels.key_seq()
    }

    /// The set of channel rows.
    pub closed spec fn channel_ids(&self) -> Set<u64> {
        self.channels@.dom()
    }

    pub closed spec fn guild_of(&self, c: u64) -> u64 {
        self.channels@[c].guild
    }

    pub closed spec fn message_of(&self, c: u64) -> Option<u64> {
        self.channels@[c].message
    }

    pub closed spec fn role_of(&self, c: u64) -> Option<u64> {
        self.channels@[c].notified_role
    }

    /// The game rows of a channel.
    pub closed spec fn games_of(&self, c: u64) -> Set<u64> {
        self.channels@[c].games@
    }

    /// The target rows of a channel.
    pub closed spec fn targets_of(&self, c: u64) -> Set<u64> {
        self.channels@[c].targets@
    }

    /// How many snapshots of this channel are still held outside the store.
    pub closed spec fn holders_of(&self, c: u64) -> nat {
        if self.holders@.contains_key(c) {
            self.holders@[c] as nat
        } else {
            0
        }
    }

    /// The channels of one guild.
    pub closed spec fn guild_channels(&self, g: u64) -> Set<u64> {
        Set::new(|c: u64| self.channels@.contains_key(c) && self.channels@[c].guild == g)
    }

    pub closed spec fn wf(&self) -> bool {
        &&& self.channels.wf()
        &&& self.holders.wf()
        &&& forall|c: u64| #[trigger] self.channels@.contains_key(c) ==> self.channels@[c].wf()
        &&& dash_set_ids(self.deleting) == Set::<u64>::empty()
    }

    /// The channel has the same presence, configuration and membership in
    /// both stores.
    pub open spec fn channel_eq(pre: &Database, post: &Database, c: u64) -> bool {
        &&& post.has_channel(c) == pre.has_channel(c)
        &&& (pre.has_channel(c) ==> {
            &&& post.guild_of(c) == pre.guild_of(c)
            &&& post.message_of(c) == pre.message_of(c)
            &&& post.role_of(c) == pre.role_of(c)
            &&& post.games_of(c) == pre.games_of(c)
            &&& post.targets_of(c) == pre.targets_of(c)
        })
    }

    /// Every channel other than `c`, and its holder count, is untouched.
    pub open spec fn unchanged_except(pre: &Database, post: &Database, c: u64) -> bool {
        &&& forall|x: u64| x != c ==> #[trigger] Database::channel_eq(pre, post, x)
        &&& forall|x: u64| x != c ==> (#[trigger] post.holders_of(x)) == pre.holders_of(x)
    }

    /// The channel tables are identical in both stores.
    pub open spec fn tables_unchanged(pre: &Database, post: &Database) -> bool {
        forall|x: u64| #[trigger] Database::channel_eq(pre, post, x)
    }

    /// Invariant: every channel's game and target sets are within their
    /// limits, and the guild-channel sets are finite.
    pub proof fn lemma_wf_limits(&self, c: u64, g: u64)
        requires
            self.wf(),
        ensures
            self.has_channel(c) ==> self.games_of(c).len() <= GAME_LIMIT,
            self.has_channel(c) ==> self.targets_of(c).len() <= TARGET_LIMIT,
            self.has_channel(c) ==> self.games_of(c).finite(),
            self.has_channel(c) ==> self.targets_of(c).finite(),
            self.channel_ids().finite(),
            self.guild_channels(g).finite(),
            self.guild_channels(g).len() <= self.channel_ids().len(),
    {
        self.channels.lemma_view();
        if self.has_channel(c) {
            self.channels@[c].games.lemma_view();
            self.channels@[c].targets.lemma_view();
        }
        assert(self.guild_channels(g).subset_of(self.channel_ids()));
        vstd::set_lib::lemma_len_subset(self.guild_channels(g), self.channel_ids());
    }

    /// An empty store: no channels, no holders, nothing mid-delete.
    pub fn new() -> (r: Database)
        ensures
            r.wf(),
            r.channel_ids() == Set::<u64>::empty(),
            forall|c: u64| !(#[trigger] r.has_channel(c)),
            forall|c: u64| (#[trigger] r.holders_of(c)) == 0,
            forall|g: u64| (#[trigger] r.guild_channels(g)) == Set::<u64>::empty(),
    {
        let r = Database { channels: IdMap::new(), holders: IdMap::new(), deleting: dash_set_new() };
        proof {
            assert forall|g: u64| (#[trigger] r.guild_channels(g)) == Set::<u64>::empty() by {
                assert(r.guild_channels(g) =~= Set::<u64>::empty());
            }
        }
        r
    }

    fn count_guild_channels(&self, guild: u64) -> (r: usize)
        requires
            self.wf(),
        ensures
            r == self.guild_channels(guild).len(),
    {
        proof {
            self.channels.lemma_view();
            self.lemma_wf_limits(0, guild);
        }
        let ghost gcs = self.guild_channels(guild);
        let n = self.channels.len();
        let mut count: usize = 0;
        proof {
            assert(self.channels.key_seq().subrange(0, 0).to_set() =~= Set::<u64>::empty());
            assert(gcs.intersect(Set::<u64>::empty()) =~= Set::<u64>::empty());
        }
        for i in 0..n
            invariant
                self.wf(),
                n == self.channels.key_seq().len(),
                gcs == self.guild_channels(guild),
                gcs.finite(),
                count == gcs.intersect(
                    self.channels.key_seq().subrange(0, i as int).to_set(),
                ).len(),
                count <= i,
        {
            proof {
                self.channels.lemma_view();
            }
            let ghost prefix = self.channels.key_seq().subrange(0, i as int).to_set();
            let k = self.channels.key_at(i);
            let rec = self.channels.val_at(i);
            proof {
                let next = self.channels.key_seq().subrange(0, i + 1).to_set();
                self.channels.key_seq().subrange(0, i + 1).lemma_cardinality_of_set();
                assert(self.channels.key_seq().subrange(0, i + 1) =~= self.channels.key_seq()
                    .subrange(0, i as int).push(k));
                self.channels.key_seq().subrange(0, i as int).lemma_push_to_set_commute(k);
                assert(next =~= prefix.insert(k));
                assert(!prefix.contains(k)) by {
                    if prefix.contains(k) {
                        let j = choose|j: int|
                            0 <= j < i && self.channels.key_seq().subrange(0, i as int)[j] == k;
                        assert(self.channels.key_seq()[j] == self.channels.key_seq()[i as int]);
                    }
                }
                vstd::set_lib::lemma_len_subset(gcs.intersect(prefix), gcs);
                if gcs.contains(k) {
                    assert(gcs.intersect(next) =~= gcs.intersect(prefix).insert(k));
                } else {
                    assert(gcs.intersect(next) =~= gcs.intersect(prefix));
                }
            }
            if rec.guild == guild {
                proof {
                    assert(gcs.contains(k));
                }
                count = count + 1;
            } else {
                proof {
                    assert(!gcs.contains(k));
                }
            }
        }
        proof {
            self.channels.lemma_view();
            assert(self.channels.key_seq().subrange(0, n as int) =~= self.channels.key_seq());
            assert(gcs.intersect(self.channels.key_seq().to_set()) =~= gcs);
        }
        count
    }

    /// Creates the channel row for a guild: fails `AlreadyInitialized` when
    /// the row exists and `LimitExceeded` when the guild is at its channel
    /// limit; on success the channel starts with empty game and target sets,
    /// no pinned message and no notified role.
    pub fn initialize(&mut self, channel: u64, guild: u64) -> (r: Result<
        (),
        ChannelInitializeError,
    >)
        requires
            old(self).wf(),
            old(self).guild_channels(guild).len() < usize::MAX,
        ensures
            final(self).wf(),
            Database::unchanged_except(old(self), final(self), channel),
            final(self).holders_of(channel) == old(self).holders_of(channel),
            ({
                let count = old(self).guild_channels(guild).len();
                if count >= CHANNEL_LIMIT {
                    &&& r == Err::<(), ChannelInitializeError>(
                        ChannelInitializeError::LimitExceeded((count + 1) as usize),
                    )
                    &&& Database::channel_eq(old(self), final(self), channel)
                } else if old(self).has_channel(channel) {
                    &&& r == Err::<(), ChannelInitializeError>(
                        ChannelInitializeError::AlreadyInitialized,
                    )
                    &&& Database::channel_eq(old(self), final(self), channel)
                } else {
                    &&& r == Ok::<(), ChannelInitializeError>(())
                    &&& final(self).has_channel(channel)
                    &&& final(self).guild_of(channel) == guild
                    &&& final(self).message_of(channel) is None
                    &&& final(self).role_of(channel) is None
                    &&& final(self).games_of(channel) == Set::<u64>::empty()
                    &&& final(self).targets_of(channel) == Set::<u64>::empty()
                    &&& final(self).guild_channels(guild) == old(self).guild_channels(
                        guild,
                    ).insert(channel)
                    &&& final(self).guild_channels(guild).len() == count + 1
                    &&& final(self).guild_channels(guild).len() <= CHANNEL_LIMIT
                }
            }),
    {
        let count = self.count_guild_channels(guild);
        if count >= CHANNEL_LIMIT {
            return Err(ChannelInitializeError::LimitExceeded(count + 1));
        }
        proof {
            self.channels.lemma_view();
        }
        if self.channels.contains_key(channel) {
            return Err(ChannelInitializeError::AlreadyInitialized);
        }
        let record = ChannelRecord {
            guild,
            message: None,
            notified_role: None,
            games: IdSet::new(),
            targets: IdSet::new(),
        };
        self.channels.insert(channel, record);
        proof {
            self.lemma_wf_limits(channel, guild);
            assert forall|x: u64| x != channel implies #[trigger] Database::channel_eq(
                old(self),
                self,
                x,
            ) by {}
            assert(self.guild_channels(guild) =~= old(self).guild_channels(guild).insert(
                channel,
            ));
            vstd::set_lib::lemma_len_subset(
                old(self).guild_channels(guild),
                old(self).channel_ids(),
            );
        }
        Ok(())
    }

    /// Looks the channel up: fails `NotInitialized` when the row is missing
    /// or mid-delete; on success hands out a snapshot and counts one more
    /// live holder.
    pub fn get_channel(&mut self, channel: u64) -> (r: Result<CachedChannel, ChannelGetError>)
        requires
            old(self).wf(),
            old(self).holders_of(channel) < u64::MAX,
        ensures
            final(self).wf(),
            Database::unchanged_except(old(self), final(self), channel),
            Database::channel_eq(old(self), final(self), channel),
            r is Ok <==> old(self).has_channel(channel),
            r matches Ok(info) ==> {
                &&& info.channel == channel
                &&& info.guild == old(self).guild_of(channel)
                &&& info.message == old(self).message_of(channel)
                &&& info.notified_role == old(self).role_of(channel)
                &&& final(self).holders_of(channel) == old(self).holders_of(channel) + 1
            },
            r is Err ==> r == Err::<CachedChannel, ChannelGetError>(ChannelGetError::NotInitialized)
                && final(self).holders_of(channel) == old(self).holders_of(channel),
    {
        if dash_set_contains(&self.deleting, channel) {
            return Err(ChannelGetError::NotInitialized);
        }
        proof {
            self.channels.lemma_view();
            self.holders.lemma_view();
        }
        let info = match self.channels.get(channel) {
            Some(record) => CachedChannel {
                channel,
                guild: record.guild,
                message: record.message,
                notified_role: record.notified_role,
            },
            None => {
                return Err(ChannelGetError::NotInitialized);
            },
        };
        let held: u64 = match self.holders.get(channel) {
            Some(h) => *h,
            None => 0,
        };
        self.holders.insert(channel, held + 1);
        proof {
            assert forall|x: u64| x != channel implies #[trigger] Database::channel_eq(
                old(self),
                self,
                x,
            ) by {}
        }
        Ok(info)
    }

    /// Releases one snapshot of the channel: one fewer live holder.
    pub fn release_channel(&mut self, channel: u64)
        requires
            old(self).wf(),
            old(self).holders_of(channel) >= 1,
        ensures
            final(self).wf(),
            Database::tables_unchanged(old(self), final(self)),
            Database::unchanged_except(old(self), final(self), channel),
            final(self).holders_of(channel) == old(self).holders_of(channel) - 1,
    {
        proof {
            self.holders.lemma_view();
        }
        let held: u64 = match self.holders.get(channel) {
            Some(h) => *h,
            None => 0,
        };
        self.holders.insert(channel, held - 1);
        proof {
            assert forall|x: u64| #[trigger] Database::channel_eq(old(self), self, x) by {}
        }
    }

    /// The safe-delete protocol: marks the channel as mid-delete, consumes
    /// the caller's snapshot, and deletes the row (games and targets cascade)
    /// only when no other holder remains; otherwise fails `OperationPending`
    /// and leaves the tables untouched.
    pub fn delete_channel(&mut self, channel: u64) -> (r: Result<(), ChannelDeleteError>)
        requires
            old(self).wf(),
            old(self).holders_of(channel) >= 1,
        ensures
            final(self).wf(),
            Database::unchanged_except(old(self), final(self), channel),
            final(self).holders_of(channel) == old(self).holders_of(channel) - 1,
            r is Ok <==> old(self).holders_of(channel) == 1,
            r is Ok ==> !final(self).has_channel(channel),
            r is Ok ==> final(self).guild_channels(old(self).guild_of(channel)) == old(
                self,
            ).guild_channels(old(self).guild_of(channel)).remove(channel),
            r is Err ==> r == Err::<(), ChannelDeleteError>(ChannelDeleteError::OperationPending)
                && Database::channel_eq(old(self), final(self), channel),
    {
        dash_set_insert(&mut self.deleting, channel);
        proof {
            self.holders.lemma_view();
        }
        let held: u64 = match self.holders.get(channel) {
            Some(h) => *h,
            None => 0,
        };
        self.holders.insert(channel, held - 1);
        let res = if held - 1 > 0 {
            Err(ChannelDeleteError::OperationPending)
        } else {
            proof {
                self.channels.lemma_view();
            }
            self.channels.remove(channel);
            Ok(())
        };
        dash_set_remove(&mut self.deleting, channel);
        proof {
            assert(dash_set_ids(self.deleting) =~= Set::<u64>::empty());
            assert forall|x: u64| x != channel implies #[trigger] Database::channel_eq(
                old(self),
                self,
                x,
            ) by {}
            if held == 1 {
                let g = old(self).guild_of(channel);
                assert(self.guild_channels(g) =~= old(self).guild_channels(g).remove(channel));
            }
        }
        res
    }
}

} // verus!

verus! {

impl Database {
    /// The channel's watched games, loaded as a list of distinct identifiers.
    pub fn get_games(&self, channel: u64) -> (r: Vec<u64>)
        requires
            self.wf(),
            self.has_channel(channel),
        ensures
            r@.no_duplicates(),
            r@.to_set() == self.games_of(channel),
    {
        proof {
            self.channels.lemma_view();
        }
        let record = self.channels.get(channel).unwrap();
        record.games.to_vec()
    }

    /// The channel's watched targets, loaded as a list of distinct identifiers.
    pub fn get_targets(&self, channel: u64) -> (r: Vec<u64>)
        requires
            self.wf(),
            self.has_channel(channel),
        ensures
            r@.no_duplicates(),
            r@.to_set() == self.targets_of(channel),
    {
        proof {
            self.channels.lemma_view();
        }
        let record = self.channels.get(channel).unwrap();
        record.targets.to_vec()
    }

    /// How many games the channel watches.
    pub fn game_count(&self, channel: u64) -> (r: usize)
        requires
            self.wf(),
            self.has_channel(channel),
        ensures
            r == self.games_of(channel).len(),
    {
        proof {
            self.channels.lemma_view();
        }
        let record = self.channels.get(channel).unwrap();
        record.games.len()
    }

    /// How many targets the channel watches.
    pub fn target_count(&self, channel: u64) -> (r: usize)
        requires
            self.wf(),
            self.has_channel(channel),
        ensures
            r == self.targets_of(channel).len(),
    {
        proof {
            self.channels.lemma_view();
        }
        let record = self.channels.get(channel).unwrap();
        record.targets.len()
    }

    /// Sets the channel's pinned status message.
    pub fn set_message(&mut self, channel: u64, message: u64)
        requires
            old(self).wf(),
            old(self).has_channel(channel),
        ensures
            final(self).wf(),
            Database::unchanged_except(old(self), final(self), channel),
            final(self).has_channel(channel),
            final(self).message_of(channel) == Some(message),
            final(self).guild_of(channel) == old(self).guild_of(channel),
            final(self).role_of(channel) == old(self).role_of(channel),
            final(self).games_of(channel) == old(self).games_of(channel),
            final(self).targets_of(channel) == old(self).targets_of(channel),
            final(self).holders_of(channel) == old(self).holders_of(channel),
    {
        proof {
            self.channels.lemma_view();
        }
        let record = self.channels.get(channel).unwrap();
        let new_record = ChannelRecord {
            guild: record.guild,
            message: Some(message),
            notified_role: record.notified_role,
            games: record.games.duplicate(),
            targets: record.targets.duplicate(),
        };
        self.channels.insert(channel, new_record);
        proof {
            assert forall|x: u64| x != channel implies #[trigger] Database::channel_eq(
                old(self),
                self,
                x,
            ) by {}
        }
    }

    /// Sets or clears the channel's notified role.
    pub fn set_notified_role(&mut self, channel: u64, role: Option<u64>)
        requires
            old(self).wf(),
            old(self).has_channel(channel),
        ensures
            final(self).wf(),
            Database::unchanged_except(old(self), final(self), channel),
            final(self).has_channel(channel),
            final(self).role_of(channel) == role,
            final(self).guild_of(channel) == old(self).guild_of(channel),
            final(self).message_of(channel) == old(self).message_of(channel),
            final(self).games_of(channel) == old(self).games_of(channel),
            final(self).targets_of(channel) == old(self).targets_of(channel),
            final(self).holders_of(channel) == old(self).holders_of(channel),
    {
        proof {
            self.channels.lemma_view();
        }
        let record = self.channels.get(channel).unwrap();
        let new_record = ChannelRecord {
            guild: record.guild,
            message: record.message,
            notified_role: role,
            games: record.games.duplicate(),
            targets: record.targets.duplicate(),
        };
        self.channels.insert(channel, new_record);
        proof {
            assert forall|x: u64| x != channel implies #[trigger] Database::channel_eq(
                old(self),
                self,
                x,
            ) by {}
        }
    }

    /// Adds games to the channel: rejects a batch that would pass the game
    /// limit, an empty batch, and a batch of which every game is already
    /// watched; otherwise returns how many rows were inserted (conflicting
    /// rows are skipped).
    pub fn add_games(&mut self, channel: u64, games: &Vec<u64>) -> (r: Result<
        usize,
        GameInsertError,
    >)
        requires
            old(self).wf(),
            old(self).has_channel(channel),
            games@.len() <= usize::MAX - GAME_LIMIT,
        ensures
            final(self).wf(),
            Database::unchanged_except(old(self), final(self), channel),
            final(self).has_channel(channel),
            final(self).guild_of(channel) == old(self).guild_of(channel),
            final(self).message_of(channel) == old(self).message_of(channel),
            final(self).role_of(channel) == old(self).role_of(channel),
            final(self).targets_of(channel) == old(self).targets_of(channel),
            final(self).holders_of(channel) == old(self).holders_of(channel),
            ({
                let count = old(self).games_of(channel).len();
                let grown = old(self).games_of(channel).union(games@.to_set());
                if count + games@.len() > GAME_LIMIT {
                    &&& r == Err::<usize, GameInsertError>(
                        GameInsertError::LimitExceeded((count + games@.len()) as usize),
                    )
                    &&& final(self).games_of(channel) == old(self).games_of(channel)
                } else if games@.len() == 0 {
                    &&& r == Err::<usize, GameInsertError>(GameInsertError::GameListEmpty)
                    &&& final(self).games_of(channel) == old(self).games_of(channel)
                } else if grown.len() == count {
                    &&& r == Err::<usize, GameInsertError>(GameInsertError::GamesNotInserted)
                    &&& final(self).games_of(channel) == old(self).games_of(channel)
                } else {
                    &&& r == Ok::<usize, GameInsertError>((grown.len() - count) as usize)
                    &&& final(self).games_of(channel) == grown
                }
            }),
    {
        proof {
            self.channels.lemma_view();
            self.lemma_wf_limits(channel, 0);
        }
        let count = self.game_count(channel);
        if count + games.len() > GAME_LIMIT {
            return Err(GameInsertError::LimitExceeded(count + games.len()));
        }
        if games.len() == 0 {
            return Err(GameInsertError::GameListEmpty);
        }
        let record = self.channels.get(channel).unwrap();
        let guild = record.guild;
        let message = record.message;
        let notified_role = record.notified_role;
        let targets = record.targets.duplicate();
        let mut new_games = record.games.duplicate();
        let ghost old_games = old(self).games_of(channel);
        let m = games.len();
        for i in 0..m
            invariant
                m == games@.len(),
                new_games.wf(),
                new_games@ == old_games.union(games@.subrange(0, i as int).to_set()),
        {
            proof {
                assert(games@.subrange(0, i as int).to_set() =~= games@.subrange(
                    0,
                    i as int,
                ).to_set());
            }
            new_games.insert(games[i]);
            proof {
                assert(games@.subrange(0, i + 1) =~= games@.subrange(0, i as int).push(
                    games@[i as int],
                ));
                games@.subrange(0, i as int).lemma_push_to_set_commute(games@[i as int]);
                assert(new_games@ =~= old_games.union(games@.subrange(0, i + 1).to_set()));
            }
        }
        proof {
            assert(games@.subrange(0, m as int) =~= games@);
            let grown = old_games.union(games@.to_set());
            assert(new_games@ == grown);
            old(self).lemma_wf_limits(channel, 0);
            vstd::set_lib::lemma_len_union(old_games, games@.to_set());
            games@.lemma_cardinality_of_set();
            assert(grown.len() <= count + games@.len());
            assert(old_games.subset_of(grown));
            vstd::set_lib::lemma_len_subset(old_games, grown);
        }
        let new_len = new_games.len();
        if new_len == count {
            return Err(GameInsertError::GamesNotInserted);
        }
        let new_record = ChannelRecord {
            guild,
            message,
            notified_role,
            games: new_games,
            targets,
        };
        self.channels.insert(channel, new_record);
        proof {
            assert forall|x: u64| x != channel implies #[trigger] Database::channel_eq(
                old(self),
                self,
                x,
            ) by {}
        }
        Ok(new_len - count)
    }

    /// Adds targets to the channel, symmetric to `add_games` with the target
    /// limit.
    pub fn add_targets(&mut self, channel: u64, targets: &Vec<u64>) -> (r: Result<
        usize,
        TargetInsertError,
    >)
        requires
            old(self).wf(),
            old(self).has_channel(channel),
            targets@.len() <= usize::MAX - TARGET_LIMIT,
        ensures
            final(self).wf(),
            Database::unchanged_except(old(self), final(self), channel),
            final(self).has_channel(channel),
            final(self).guild_of(channel) == old(self).guild_of(channel),
            final(self).message_of(channel) == old(self).message_of(channel),
            final(self).role_of(channel) == old(self).role_of(channel),
            final(self).games_of(channel) == old(self).games_of(channel),
            final(self).holders_of(channel) == old(self).holders_of(channel),
            ({
                let count = old(self).targets_of(channel).len();
                let grown = old(self).targets_of(channel).union(targets@.to_set());
                if count + targets@.len() > TARGET_LIMIT {
                    &&& r == Err::<usize, TargetInsertError>(
                        TargetInsertError::LimitExceeded((count + targets@.len()) as usize),
                    )
                    &&& final(self).targets_of(channel) == old(self).targets_of(channel)
                } else if targets@.len() == 0 {
                    &&& r == Err::<usize, TargetInsertError>(TargetInsertError::TargetListEmpty)
                    &&& final(self).targets_of(channel) == old(self).targets_of(channel)
                } else if grown.len() == count {
                    &&& r == Err::<usize, TargetInsertError>(TargetInsertError::TargetsNotInserted)
                    &&& final(self).targets_of(channel) == old(self).targets_of(channel)
                } else {
                    &&& r == Ok::<usize, TargetInsertError>((grown.len() - count) as usize)
                    &&& final(self).targets_of(channel) == grown
                }
            }),
    {
        proof {
            self.channels.lemma_view();
            self.lemma_wf_limits(channel, 0);
        }
        let count = self.target_count(channel);
        if count + targets.len() > TARGET_LIMIT {
            return Err(TargetInsertError::LimitExceeded(count + targets.len()));
        }
        if targets.len() == 0 {
            return Err(TargetInsertError::TargetListEmpty);
        }
        let record = self.channels.get(channel).unwrap();
        let guild = record.guild;
        let message = record.message;
        let notified_role = record.notified_role;
        let games = record.games.duplicate();
        let mut new_targets = record.targets.duplicate();
        let ghost old_targets = old(self).targets_of(channel);
        let m = targets.len();
        for i in 0..m
            invariant
                m == targets@.len(),
                new_targets.wf(),
                new_targets@ == old_targets.union(targets@.subrange(0, i as int).to_set()),
        {
            new_targets.insert(targets[i]);
            proof {
                assert(targets@.subrange(0, i + 1) =~= targets@.subrange(0, i as int).push(
                    targets@[i as int],
                ));
                targets@.subrange(0, i as int).lemma_push_to_set_commute(targets@[i as int]);
                assert(new_targets@ =~= old_targets.union(targets@.subrange(0, i + 1).to_set()));
            }
        }
        proof {
            assert(targets@.subrange(0, m as int) =~= targets@);
            let grown = old_targets.union(targets@.to_set());
            assert(new_targets@ == grown);
            old(self).lemma_wf_limits(channel, 0);
            vstd::set_lib::lemma_len_union(old_targets, targets@.to_set());
            targets@.lemma_cardinality_of_set();
            assert(grown.len() <= count + targets@.len());
            assert(old_targets.subset_of(grown));
            vstd::set_lib::lemma_len_subset(old_targets, grown);
        }
        let new_len = new_targets.len();
        if new_len == count {
            return Err(TargetInsertError::TargetsNotInserted);
        }
        let new_record = ChannelRecord {
            guild,
            message,
            notified_role,
            games,
            targets: new_targets,
        };
        self.channels.insert(channel, new_record);
        proof {
            assert forall|x: u64| x != channel implies #[trigger] Database::channel_eq(
                old(self),
                self,
                x,
            ) by {}
        }
        Ok(new_len - count)
    }
}

} // verus!

verus! {

impl Database {
    /// Removes the listed games from the channel: fails `GamesNotDeleted`
    /// when none of them was watched, else returns how many rows were
    /// deleted.
    pub fn remove_games(&mut self, channel: u64, games: &Vec<u64>) -> (r: Result<
        usize,
        GameDeleteError,
    >)
        requires
            old(self).wf(),
            old(self).has_channel(channel),
        ensures
            final(self).wf(),
            Database::unchanged_except(old(self), final(self), channel),
            final(self).has_channel(channel),
            final(self).guild_of(channel) == old(self).guild_of(channel),
            final(self).message_of(channel) == old(self).message_of(channel),
            final(self).role_of(channel) == old(self).role_of(channel),
            final(self).targets_of(channel) == old(self).targets_of(channel),
            final(self).holders_of(channel) == old(self).holders_of(channel),
            ({
                let count = old(self).games_of(channel).len();
                let shrunk = old(self).games_of(channel).difference(games@.to_set());
                if shrunk.len() == count {
                    &&& r == Err::<usize, GameDeleteError>(GameDeleteError::GamesNotDeleted)
                    &&& final(self).games_of(channel) == old(self).games_of(channel)
                } else {
                    &&& r == Ok::<usize, GameDeleteError>((count - shrunk.len()) as usize)
                    &&& final(self).games_of(channel) == shrunk
                }
            }),
    {
        proof {
            self.channels.lemma_view();
            self.lemma_wf_limits(channel, 0);
        }
        let count = self.game_count(channel);
        let record = self.channels.get(channel).unwrap();
        let guild = record.guild;
        let message = record.message;
        let notified_role = record.notified_role;
        let targets = record.targets.duplicate();
        let mut new_games = record.games.duplicate();
        let ghost old_games = old(self).games_of(channel);
        let m = games.len();
        for i in 0..m
            invariant
                m == games@.len(),
                new_games.wf(),
                new_games@ == old_games.difference(games@.subrange(0, i as int).to_set()),
        {
            new_games.remove(games[i]);
            proof {
                assert(games@.subrange(0, i + 1) =~= games@.subrange(0, i as int).push(
                    games@[i as int],
                ));
                games@.subrange(0, i as int).lemma_push_to_set_commute(games@[i as int]);
                assert(new_games@ =~= old_games.difference(games@.subrange(0, i + 1).to_set()));
            }
        }
        proof {
            assert(games@.subrange(0, m as int) =~= games@);
            let shrunk = old_games.difference(games@.to_set());
            assert(new_games@ == shrunk);
            old(self).lemma_wf_limits(channel, 0);
            assert(shrunk.subset_of(old_games));
            vstd::set_lib::lemma_len_subset(shrunk, old_games);
        }
        let new_len = new_games.len();
        if new_len == count {
            return Err(GameDeleteError::GamesNotDeleted);
        }
        let new_record = ChannelRecord {
            guild,
            message,
            notified_role,
            games: new_games,
            targets,
        };
        self.channels.insert(channel, new_record);
        proof {
            assert forall|x: u64| x != channel implies #[trigger] Database::channel_eq(
                old(self),
                self,
                x,
            ) by {}
        }
        Ok(count - new_len)
    }

    /// Removes the listed targets from the channel, symmetric to
    /// `remove_games`.
    pub fn remove_targets(&mut self, channel: u64, targets: &Vec<u64>) -> (r: Result<
        usize,
        TargetDeleteError,
    >)
        requires
            old(self).wf(),
            old(self).has_channel(channel),
        ensures
            final(self).wf(),
            Database::unchanged_except(old(self), final(self), channel),
            final(self).has_channel(channel),
            final(self).guild_of(channel) == old(self).guild_of(channel),
            final(self).message_of(channel) == old(self).message_of(channel),
            final(self).role_of(channel) == old(self).role_of(channel),
            final(self).games_of(channel) == old(self).games_of(channel),
            final(self).holders_of(channel) == old(self).holders_of(channel),
            ({
                let count = old(self).targets_of(channel).len();
                let shrunk = old(self).targets_of(channel).difference(targets@.to_set());
                if shrunk.len() == count {
                    &&& r == Err::<usize, TargetDeleteError>(TargetDeleteError::TargetsNotDeleted)
                    &&& final(self).targets_of(channel) == old(self).targets_of(channel)
                } else {
                    &&& r == Ok::<usize, TargetDeleteError>((count - shrunk.len()) as usize)
                    &&& final(self).targets_of(channel) == shrunk
                }
            }),
    {
        proof {
            self.channels.lemma_view();
            self.lemma_wf_limits(channel, 0);
        }
        let count = self.target_count(channel);
        let record = self.channels.get(channel).unwrap();
        let guild = record.guild;
        let message = record.message;
        let notified_role = record.notified_role;
        let games = record.games.duplicate();
        let mut new_targets = record.targets.duplicate();
        let ghost old_targets = old(self).targets_of(channel);
        let m = targets.len();
        for i in 0..m
            invariant
                m == targets@.len(),
                new_targets.wf(),
                new_targets@ == old_targets.difference(targets@.subrange(0, i as int).to_set()),
        {
            new_targets.remove(targets[i]);
            proof {
                assert(targets@.subrange(0, i + 1) =~= targets@.subrange(0, i as int).push(
                    targets@[i as int],
                ));
                targets@.subrange(0, i as int).lemma_push_to_set_commute(targets@[i as int]);
                assert(new_targets@ =~= old_targets.difference(
                    targets@.subrange(0, i + 1).to_set(),
                ));
            }
        }
        proof {
            assert(targets@.subrange(0, m as int) =~= targets@);
            let shrunk = old_targets.difference(targets@.to_set());
            assert(new_targets@ == shrunk);
            old(self).lemma_wf_limits(channel, 0);
            assert(shrunk.subset_of(old_targets));
            vstd::set_lib::lemma_len_subset(shrunk, old_targets);
        }
        let new_len = new_targets.len();
        if new_len == count {
            return Err(TargetDeleteError::TargetsNotDeleted);
        }
        let new_record = ChannelRecord {
            guild,
            message,
            notified_role,
            games,
            targets: new_targets,
        };
        self.channels.insert(channel, new_record);
        proof {
            assert forall|x: u64| x != channel implies #[trigger] Database::channel_eq(
                old(self),
                self,
                x,
            ) by {}
        }
        Ok(count - new_len)
    }

    /// Removes every game of the channel: fails `GamesNotDeleted` when there
    /// was none, else returns how many rows were deleted.
    pub fn clear_games(&mut self, channel: u64) -> (r: Result<usize, GameDeleteError>)
        requires
            old(self).wf(),
            old(self).has_channel(channel),
        ensures
            final(self).wf(),
            Database::unchanged_except(old(self), final(self), channel),
            final(self).has_channel(channel),
            final(self).guild_of(channel) == old(self).guild_of(channel),
            final(self).message_of(channel) == old(self).message_of(channel),
            final(self).role_of(channel) == old(self).role_of(channel),
            final(self).targets_of(channel) == old(self).targets_of(channel),
            final(self).holders_of(channel) == old(self).holders_of(channel),
            ({
                let count = old(self).games_of(channel).len();
                if count == 0 {
                    &&& r == Err::<usize, GameDeleteError>(GameDeleteError::GamesNotDeleted)
                    &&& final(self).games_of(channel) == old(self).games_of(channel)
                } else {
                    &&& r == Ok::<usize, GameDeleteError>(count as usize)
                    &&& final(self).games_of(channel) == Set::<u64>::empty()
                }
            }),
    {
        proof {
            self.channels.lemma_view();
            self.lemma_wf_limits(channel, 0);
        }
        let count = self.game_count(channel);
        if count == 0 {
            return Err(GameDeleteError::GamesNotDeleted);
        }
        let record = self.channels.get(channel).unwrap();
        let new_record = ChannelRecord {
            guild: record.guild,
            message: record.message,
            notified_role: record.notified_role,
            games: IdSet::new(),
            targets: record.targets.duplicate(),
        };
        self.channels.insert(channel, new_record);
        proof {
            assert forall|x: u64| x != channel implies #[trigger] Database::channel_eq(
                old(self),
                self,
                x,
            ) by {}
        }
        Ok(count)
    }

    /// Removes every target of the channel, symmetric to `clear_games`.
    pub fn clear_targets(&mut self, channel: u64) -> (r: Result<usize, TargetDeleteError>)
        requires
            old(self).wf(),
            old(self).has_channel(channel),
        ensures
            final(self).wf(),
            Database::unchanged_except(old(self), final(self), channel),
            final(self).has_channel(channel),
            final(self).guild_of(channel) == old(self).guild_of(channel),
            final(self).message_of(channel) == old(self).message_of(channel),
            final(self).role_of(channel) == old(self).role_of(channel),
            final(self).games_of(channel) == old(self).games_of(channel),
            final(self).holders_of(channel) == old(self).holders_of(channel),
            ({
                let count = old(self).targets_of(channel).len();
                if count == 0 {
                    &&& r == Err::<usize, TargetDeleteError>(TargetDeleteError::TargetsNotDeleted)
                    &&& final(self).targets_of(channel) == old(self).targets_of(channel)
                } else {
                    &&& r == Ok::<usize, TargetDeleteError>(count as usize)
                    &&& final(self).targets_of(channel) == Set::<u64>::empty()
                }
            }),
    {
        proof {
            self.channels.lemma_view();
            self.lemma_wf_limits(channel, 0);
        }
        let count = self.target_count(channel);
        if count == 0 {
            return Err(TargetDeleteError::TargetsNotDeleted);
        }
        let record = self.channels.get(channel).unwrap();
        let new_record = ChannelRecord {
            guild: record.guild,
            message: record.message,
            notified_role: record.notified_role,
            games: record.games.duplicate(),
            targets: IdSet::new(),
        };
        self.channels.insert(channel, new_record);
        proof {
            assert forall|x: u64| x != channel implies #[trigger] Database::channel_eq(
                old(self),
                self,
                x,
            ) by {}
        }
        Ok(count)
    }

    /// Every channel row, as a list of distinct identifiers.
    pub fn get_all_channels(&self) -> (r: Vec<u64>)
        requires
            self.wf(),
        ensures
            r@.no_duplicates(),
            r@.to_set() == self.channel_ids(),
    {
        proof {
            self.channels.lemma_view();
        }
        self.channels.keys()
    }

    /// The channel rows of one guild, as a list of distinct identifiers.
    pub fn get_guild_channels(&self, guild: u64) -> (r: Vec<u64>)
        requires
            self.wf(),
        ensures
            r@.no_duplicates(),
            r@.to_set() == self.guild_channels(guild),
    {
        proof {
            self.channels.lemma_view();
        }
        let ghost gcs = self.guild_channels(guild);
        let n = self.channels.len();
        let mut r: Vec<u64> = Vec::new();
        for i in 0..n
            invariant
                self.wf(),
                n == self.channels.key_seq().len(),
                gcs == self.guild_channels(guild),
                r@.no_duplicates(),
                r@.to_set() == gcs.intersect(self.channels.key_seq().subrange(0, i as int).to_set()),
                forall|j: int| 0 <= j < r@.len() ==> self.channels.key_seq().subrange(
                    0,
                    i as int,
                ).contains(#[trigger] r@[j]),
        {
            proof {
                self.channels.lemma_view();
            }
            let ghost prefix = self.channels.key_seq().subrange(0, i as int);
            let k = self.channels.key_at(i);
            let rec = self.channels.val_at(i);
            proof {
                assert(self.channels.key_seq().subrange(0, i + 1) =~= prefix.push(k));
                prefix.lemma_push_to_set_commute(k);
                assert(!prefix.contains(k)) by {
                    if prefix.contains(k) {
                        let j = choose|j: int| 0 <= j < i && prefix[j] == k;
                        assert(self.channels.key_seq()[j] == self.channels.key_seq()[i as int]);
                    }
                }
            }
            let ghost pre = r@;
            if rec.guild == guild {
                proof {
                    assert(gcs.contains(k));
                    assert(!r@.contains(k));
                }
                r.push(k);
                proof {
                    assert(r@.drop_last() =~= pre);
                    pre.lemma_push_to_set_commute(k);
                    assert(r@.to_set() =~= gcs.intersect(
                        self.channels.key_seq().subrange(0, i + 1).to_set(),
                    ));
                    assert forall|p: int, q: int|
                        0 <= p < r@.len() && 0 <= q < r@.len() && p != q implies r@[p] != r@[q] by {}
                }
            } else {
                proof {
                    assert(!gcs.contains(k));
                    assert(r@.to_set() =~= gcs.intersect(
                        self.channels.key_seq().subrange(0, i + 1).to_set(),
                    ));
                }
            }
            proof {
                assert forall|j: int| 0 <= j < r@.len() implies self.channels.key_seq().subrange(
                    0,
                    i + 1,
                ).contains(#[trigger] r@[j]) by {
                    if j < r@.len() {
                        if r@[j] == k {
                            assert(self.channels.key_seq().subrange(0, i + 1)[i as int] == k);
                        } else {
                            assert(pre.to_set().contains(r@[j]) || prefix.contains(r@[j]) || true);
                            assert(prefix.contains(r@[j])) by {
                                if j < pre.len() {
                                    assert(pre[j] == r@[j]);
                                }
                            }
                            let jj = choose|jj: int| 0 <= jj < i && prefix[jj] == r@[j];
                            assert(self.channels.key_seq().subrange(0, i + 1)[jj] == r@[j]);
                        }
                    }
                }
            }
        }
        proof {
            assert(self.channels.key_seq().subrange(0, n as int) =~= self.channels.key_seq());
            assert(gcs.subset_of(self.channels.key_seq().to_set()));
            assert(r@.to_set() =~= gcs);
        }
        r
    }
}

} // verus!

verus! {

impl Database {
    /// A game and a target co-exist in some channel.
    pub open spec fn game_target_pair(&self, g: u64, t: u64) -> bool {
        exists|c: u64|
            (#[trigger] self.has_channel(c)) && self.games_of(c).contains(g) && self.targets_of(
                c,
            ).contains(t)
    }

    /// The set of distinct games watched by any channel.
    pub open spec fn all_games(&self) -> Set<u64> {
        Set::new(
            |g: u64|
                exists|c: u64| (#[trigger] self.has_channel(c)) && self.games_of(c).contains(g),
        )
    }

    /// The set of distinct targets watched by any channel.
    pub open spec fn all_targets(&self) -> Set<u64> {
        Set::new(
            |t: u64|
                exists|c: u64| (#[trigger] self.has_channel(c)) && self.targets_of(c).contains(t),
        )
    }

    /// A game and a target co-exist in one of the first `k` channels of the
    /// key order `ks`.
    pub open spec fn pair_in_prefix(&self, ks: Seq<u64>, k: int, g: u64, t: u64) -> bool {
        exists|ci: int|
            0 <= ci < k && self.has_channel(#[trigger] ks[ci]) && self.games_of(ks[ci]).contains(
                g,
            ) && self.targets_of(ks[ci]).contains(t)
    }

    proof fn lemma_prefix_step(&self, ks: Seq<u64>, k: int, g: u64, t: u64)
        requires
            0 <= k < ks.len(),
        ensures
            self.pair_in_prefix(ks, k + 1, g, t) <==> (self.pair_in_prefix(ks, k, g, t) || (
            self.has_channel(ks[k]) && self.games_of(ks[k]).contains(g) && self.targets_of(
                ks[k],
            ).contains(t))),
    {
        if self.pair_in_prefix(ks, k + 1, g, t) {
            let ci = choose|ci: int|
                0 <= ci < k + 1 && self.has_channel(#[trigger] ks[ci]) && self.games_of(
                    ks[ci],
                ).contains(g) && self.targets_of(ks[ci]).contains(t);
            if ci < k {
                assert(self.pair_in_prefix(ks, k, g, t));
            }
        }
        if self.pair_in_prefix(ks, k, g, t) {
            let ci = choose|ci: int|
                0 <= ci < k && self.has_channel(#[trigger] ks[ci]) && self.games_of(
                    ks[ci],
                ).contains(g) && self.targets_of(ks[ci]).contains(t);
            assert(0 <= ci < k + 1 && self.has_channel(ks[ci]) && self.games_of(ks[ci]).contains(
                g,
            ) && self.targets_of(ks[ci]).contains(t));
        }
        if self.has_channel(ks[k]) && self.games_of(ks[k]).contains(g) && self.targets_of(
            ks[k],
        ).contains(t) {
            assert(0 <= k < k + 1 && self.has_channel(ks[k]) && self.games_of(ks[k]).contains(g)
                && self.targets_of(ks[k]).contains(t));
        }
    }

    /// Every pair the map holds comes from the first `k` channels, or from
    /// the games `gs` crossed with the targets `ts` of the channel in hand.
    pub open spec fn pairs_bounded(
        &self,
        rm: Map<u64, IdSet>,
        ks: Seq<u64>,
        k: int,
        gs: Seq<u64>,
        ts: Set<u64>,
    ) -> bool {
        forall|g: u64, t: u64|
            #![trigger self.pair_in_prefix(ks, k, g, t)]
            (rm.contains_key(g) && rm[g]@.contains(t)) ==> (self.pair_in_prefix(ks, k, g, t) || (
            gs.contains(g) && ts.contains(t)))
    }

    /// The map holds every pair of the first `k` channels.
    pub open spec fn prefix_covered(&self, rm: Map<u64, IdSet>, ks: Seq<u64>, k: int) -> bool {
        forall|g: u64, t: u64|
            #![trigger self.pair_in_prefix(ks, k, g, t)]
            self.pair_in_prefix(ks, k, g, t) ==> (rm.contains_key(g) && rm[g]@.contains(t))
    }

    /// The map holds every pair of the games `gs` crossed with the targets
    /// `ts`.
    pub open spec fn chan_covered(rm: Map<u64, IdSet>, gs: Seq<u64>, ts: Set<u64>) -> bool {
        forall|g: u64, t: u64|
            #![trigger gs.contains(g), ts.contains(t)]
            (gs.contains(g) && ts.contains(t)) ==> (rm.contains_key(g) && rm[g]@.contains(t))
    }

    /// Every value of the map is a well-formed, inhabited set.
    pub open spec fn values_wf(rm: Map<u64, IdSet>) -> bool {
        forall|g: u64|
            #[trigger] rm.contains_key(g) ==> rm[g].wf() && (exists|t: u64| rm[g]@.contains(t))
    }

    /// The distinct (game, target) pairs that co-exist in some channel,
    /// grouped by game: the snapshot the tracking cycle scans.
    pub fn get_all_games_and_targets(&self) -> (r: IdMap<IdSet>)
        requires
            self.wf(),
        ensures
            r.wf(),
            Database::values_wf(r@),
            forall|g: u64, t: u64|
                #![trigger r@[g]@.contains(t)]
                (r@.contains_key(g) && r@[g]@.contains(t)) ==> self.game_target_pair(g, t),
            forall|g: u64, t: u64|
                #![trigger self.game_target_pair(g, t)]
                self.game_target_pair(g, t) ==> (r@.contains_key(g) && r@[g]@.contains(t)),
    {
        proof {
            self.channels.lemma_view();
        }
        let ghost ks = self.channels.key_seq();
        let ghost none_g: Seq<u64> = Seq::empty();
        let ghost none_t: Set<u64> = Set::empty();
        let n = self.channels.len();
        let mut r: IdMap<IdSet> = IdMap::new();
        for i in 0..n
            invariant
                self.wf(),
                n == ks.len(),
                ks == self.channels.key_seq(),
                none_g == Seq::<u64>::empty(),
                none_t == Set::<u64>::empty(),
                r.wf(),
                Database::values_wf(r@),
                self.pairs_bounded(r@, ks, i as int, none_g, none_t),
                self.prefix_covered(r@, ks, i as int),
        {
            proof {
                self.channels.lemma_view();
            }
            let c = self.channels.key_at(i);
            let games = self.get_games(c);
            let targets = self.get_targets(c);
            let ghost tset = self.targets_of(c);
            if targets.len() > 0 {
                let gn = games.len();
                for j in 0..gn
                    invariant
                        self.wf(),
                        0 <= i < n,
                        n == ks.len(),
                        ks == self.channels.key_seq(),
                        c == ks[i as int],
                        self.has_channel(c),
                        gn == games@.len(),
                        games@.to_set() == self.games_of(c),
                        targets@.to_set() == self.targets_of(c),
                        targets@.len() > 0,
                        tset == self.targets_of(c),
                        r.wf(),
                        Database::values_wf(r@),
                        self.pairs_bounded(r@, ks, i as int, games@.subrange(0, j as int), tset),
                        self.prefix_covered(r@, ks, i as int),
                        Database::chan_covered(r@, games@.subrange(0, j as int), tset),
                {
                    let g = games[j];
                    let mut cur: IdSet = match r.get(g) {
                        Some(s) => s.duplicate(),
                        None => IdSet::new(),
                    };
                    let ghost curpre = cur@;
                    let ghost had_key = r@.contains_key(g);
                    cur.insert_all(&targets);
                    proof {
                        let w = targets@[0int];
                        assert(targets@[0int] == w);
                        assert(targets@.contains(w));
                        assert(targets@.to_set().contains(w));
                        assert(cur@.contains(w));
                    }
                    let ghost rpre = r@;
                    r.insert(g, cur);
                    proof {
                        let pre = games@.subrange(0, j as int);
                        let nxt = games@.subrange(0, j + 1);
                        assert(nxt.drop_last() =~= pre);
                        assert(nxt[j as int] == g);
                        assert(nxt.contains(g));
                        assert forall|g2: u64| pre.contains(g2) implies nxt.contains(g2) by {
                            let jj = choose|jj: int| 0 <= jj < j && (#[trigger] pre[jj]) == g2;
                            assert(nxt[jj] == g2);
                        }
                        assert forall|g2: u64| nxt.contains(g2) && g2 != g implies pre.contains(
                            g2,
                        ) by {
                            let jj = choose|jj: int| 0 <= jj < j + 1 && (#[trigger] nxt[jj]) == g2;
                            assert(pre[jj] == g2);
                        }
                        assert(Database::values_wf(r@)) by {
                            assert forall|g2: u64| #[trigger] r@.contains_key(g2) implies r@[g2].wf()
                                && (exists|t: u64| r@[g2]@.contains(t)) by {
                                if g2 == g {
                                    let w = targets@[0int];
                                    assert(r@[g2] == cur);
                                    assert(cur.wf());
                                    assert(cur@.contains(w));
                                } else {
                                    assert(rpre.contains_key(g2));
                                    assert(r@[g2] == rpre[g2]);
                                    assert(rpre[g2].wf());
                                    let w = choose|t: u64| rpre[g2]@.contains(t);
                                    assert(r@[g2]@.contains(w));
                                }
                            }
                        }
                        assert(self.pairs_bounded(r@, ks, i as int, nxt, tset)) by {
                            assert forall|g2: u64, t: u64|
                                #![trigger self.pair_in_prefix(ks, i as int, g2, t)]
                                (r@.contains_key(g2) && r@[g2]@.contains(t)) implies (
                            self.pair_in_prefix(ks, i as int, g2, t) || (nxt.contains(g2)
                                && tset.contains(t))) by {
                                if r@.contains_key(g2) && r@[g2]@.contains(t) {
                                    if g2 == g {
                                        if targets@.to_set().contains(t) {
                                        } else {
                                            assert(curpre.contains(t));
                                            if had_key {
                                                assert(rpre[g]@.contains(t));
                                            }
                                        }
                                    } else {
                                        assert(rpre.contains_key(g2) && rpre[g2]@.contains(t));
                                    }
                                }
                            }
                        }
                        assert(self.prefix_covered(r@, ks, i as int)) by {
                            assert forall|g2: u64, t: u64|
                                #![trigger self.pair_in_prefix(ks, i as int, g2, t)]
                                self.pair_in_prefix(ks, i as int, g2, t) implies (r@.contains_key(
                                g2,
                            ) && r@[g2]@.contains(t)) by {
                                if self.pair_in_prefix(ks, i as int, g2, t) {
                                    assert(rpre.contains_key(g2) && rpre[g2]@.contains(t));
                                    if g2 == g {
                                        assert(curpre.contains(t));
                                        assert(cur@.contains(t));
                                    }
                                }
                            }
                        }
                        assert(Database::chan_covered(r@, nxt, tset)) by {
                            assert forall|g2: u64, t: u64|
                                #![trigger nxt.contains(g2), tset.contains(t)]
                                (nxt.contains(g2) && tset.contains(t)) implies (r@.contains_key(g2)
                                    && r@[g2]@.contains(t)) by {
                                if nxt.contains(g2) && tset.contains(t) {
                                    if g2 == g {
                                        assert(targets@.to_set().contains(t));
                                        assert(cur@.contains(t));
                                    } else {
                                        assert(pre.contains(g2));
                                        assert(rpre.contains_key(g2) && rpre[g2]@.contains(t));
                                    }
                                }
                            }
                        }
                    }
                }
                proof {
                    assert(games@.subrange(0, gn as int) =~= games@);
                    assert(self.pairs_bounded(r@, ks, i + 1, none_g, none_t)) by {
                        assert forall|g: u64, t: u64|
                            #![trigger self.pair_in_prefix(ks, i + 1, g, t)]
                            (r@.contains_key(g) && r@[g]@.contains(t)) implies (self.pair_in_prefix(
                            ks,
                            i + 1,
                            g,
                            t,
                        ) || (none_g.contains(g) && none_t.contains(t))) by {
                            self.lemma_prefix_step(ks, i as int, g, t);
                            if r@.contains_key(g) && r@[g]@.contains(t) {
                                if self.pair_in_prefix(ks, i as int, g, t) {
                                } else {
                                    assert(games@.contains(g) && tset.contains(t));
                                    assert(games@.to_set().contains(g));
                                    assert(self.games_of(c).contains(g));
                                }
                            }
                        }
                    }
                    assert(self.prefix_covered(r@, ks, i + 1)) by {
                        assert forall|g: u64, t: u64|
                            #![trigger self.pair_in_prefix(ks, i + 1, g, t)]
                            self.pair_in_prefix(ks, i + 1, g, t) implies (r@.contains_key(g)
                                && r@[g]@.contains(t)) by {
                            self.lemma_prefix_step(ks, i as int, g, t);
                            if self.pair_in_prefix(ks, i + 1, g, t) {
                                if self.pair_in_prefix(ks, i as int, g, t) {
                                } else {
                                    assert(self.games_of(c).contains(g) && self.targets_of(
                                        c,
                                    ).contains(t));
                                    assert(games@.to_set().contains(g));
                                    assert(games@.contains(g));
                                    assert(tset.contains(t));
                                }
                            }
                        }
                    }
                }
            } else {
                proof {
                    assert forall|t: u64| !tset.contains(t) by {
                        if targets@.to_set().contains(t) {
                            assert(targets@.contains(t));
                        }
                    }
                    assert(self.pairs_bounded(r@, ks, i + 1, none_g, none_t)) by {
                        assert forall|g: u64, t: u64|
                            #![trigger self.pair_in_prefix(ks, i + 1, g, t)]
                            (r@.contains_key(g) && r@[g]@.contains(t)) implies (self.pair_in_prefix(
                            ks,
                            i + 1,
                            g,
                            t,
                        ) || (none_g.contains(g) && none_t.contains(t))) by {
                            self.lemma_prefix_step(ks, i as int, g, t);
                        }
                    }
                    assert(self.prefix_covered(r@, ks, i + 1)) by {
                        assert forall|g: u64, t: u64|
                            #![trigger self.pair_in_prefix(ks, i + 1, g, t)]
                            self.pair_in_prefix(ks, i + 1, g, t) implies (r@.contains_key(g)
                                && r@[g]@.contains(t)) by {
                            self.lemma_prefix_step(ks, i as int, g, t);
                            if self.pair_in_prefix(ks, i + 1, g, t) && !self.pair_in_prefix(
                                ks,
                                i as int,
                                g,
                                t,
                            ) {
                                assert(self.targets_of(c).contains(t));
                                assert(tset.contains(t));
                            }
                        }
                    }
                }
            }
        }
        proof {
            self.channels.lemma_view();
            assert forall|g: u64, t: u64|
                #![trigger r@[g]@.contains(t)]
                (r@.contains_key(g) && r@[g]@.contains(t)) implies self.game_target_pair(g, t) by {
                if r@.contains_key(g) && r@[g]@.contains(t) {
                    assert(self.pair_in_prefix(ks, n as int, g, t) || (none_g.contains(g)
                        && none_t.contains(t)));
                    let ci = choose|ci: int|
                        0 <= ci < n && self.has_channel(#[trigger] ks[ci]) && self.games_of(
                            ks[ci],
                        ).contains(g) && self.targets_of(ks[ci]).contains(t);
                    assert(self.has_channel(ks[ci]) && self.games_of(ks[ci]).contains(g)
                        && self.targets_of(ks[ci]).contains(t));
                }
            }
            assert forall|g: u64, t: u64|
                #![trigger self.game_target_pair(g, t)]
                self.game_target_pair(g, t) implies (r@.contains_key(g) && r@[g]@.contains(
                    t,
                )) by {
                if self.game_target_pair(g, t) {
                    let c = choose|c: u64|
                        (#[trigger] self.has_channel(c)) && self.games_of(c).contains(g)
                            && self.targets_of(c).contains(t);
                    assert(self.channels@.dom().contains(c));
                    assert(ks.to_set().contains(c));
                    assert(ks.contains(c));
                    let ci = choose|ci: int| 0 <= ci < ks.len() && (#[trigger] ks[ci]) == c;
                    assert(0 <= ci < n && self.has_channel(ks[ci]) && self.games_of(
                        ks[ci],
                    ).contains(g) && self.targets_of(ks[ci]).contains(t));
                    assert(self.pair_in_prefix(ks, n as int, g, t));
                }
            }
        }
        r
    }

    /// How many distinct games are watched across all channels.
    pub fn get_game_count(&self) -> (r: usize)
        requires
            self.wf(),
        ensures
            self.all_games().finite(),
            r == self.all_games().len(),
    {
        proof {
            self.channels.lemma_view();
        }
        let ghost ks = self.channels.key_seq();
        let n = self.channels.len();
        let mut acc = IdSet::new();
        for i in 0..n
            invariant
                self.wf(),
                n == ks.len(),
                ks == self.channels.key_seq(),
                acc.wf(),
                forall|g: u64|
                    #[trigger] acc@.contains(g) <==> (exists|ci: int|
                        0 <= ci < i && self.has_channel(#[trigger] ks[ci]) && self.games_of(
                            ks[ci],
                        ).contains(g)),
        {
            proof {
                self.channels.lemma_view();
            }
            let c = self.channels.key_at(i);
            let games = self.get_games(c);
            acc.insert_all(&games);
            proof {
                assert forall|g: u64|
                    #[trigger] acc@.contains(g) <==> (exists|ci: int|
                        0 <= ci < i + 1 && self.has_channel(#[trigger] ks[ci]) && self.games_of(
                            ks[ci],
                        ).contains(g)) by {
                    if acc@.contains(g) {
                        if games@.to_set().contains(g) {
                            assert(0 <= i < i + 1 && self.has_channel(ks[i as int])
                                && self.games_of(ks[i as int]).contains(g));
                        } else {
                            let ci = choose|ci: int|
                                0 <= ci < i && self.has_channel(#[trigger] ks[ci])
                                    && self.games_of(ks[ci]).contains(g);
                            assert(0 <= ci < i + 1 && self.has_channel(ks[ci]) && self.games_of(
                                ks[ci],
                            ).contains(g));
                        }
                    }
                    if exists|ci: int|
                        0 <= ci < i + 1 && self.has_channel(#[trigger] ks[ci]) && self.games_of(
                            ks[ci],
                        ).contains(g) {
                        let ci = choose|ci: int|
                            0 <= ci < i + 1 && self.has_channel(#[trigger] ks[ci])
                                && self.games_of(ks[ci]).contains(g);
                        assert(ci < i || ks[ci] == ks[i as int]);
                    }
                }
            }
        }
        proof {
            self.channels.lemma_view();
            acc.lemma_view();
            assert(acc@ =~= self.all_games()) by {
                assert forall|g: u64| acc@.contains(g) <==> self.all_games().contains(g) by {
                    if acc@.contains(g) {
                        let ci = choose|ci: int|
                            0 <= ci < n && self.has_channel(#[trigger] ks[ci]) && self.games_of(
                                ks[ci],
                            ).contains(g);
                    }
                    if self.all_games().contains(g) {
                        let c = choose|c: u64|
                            (#[trigger] self.has_channel(c)) && self.games_of(c).contains(g);
                        assert(ks.to_set().contains(c));
                        let ci = choose|ci: int| 0 <= ci < ks.len() && ks[ci] == c;
                        assert(0 <= ci < n && self.has_channel(ks[ci]) && self.games_of(
                            ks[ci],
                        ).contains(g));
                    }
                }
            }
        }
        acc.len()
    }

    /// How many distinct targets are watched across all channels.
    pub fn get_target_count(&self) -> (r: usize)
        requires
            self.wf(),
        ensures
            self.all_targets().finite(),
            r == self.all_targets().len(),
    {
        proof {
            self.channels.lemma_view();
        }
        let ghost ks = self.channels.key_seq();
        let n = self.channels.len();
        let mut acc = IdSet::new();
        for i in 0..n
            invariant
                self.wf(),
                n == ks.len(),
                ks == self.channels.key_seq(),
                acc.wf(),
                forall|t: u64|
                    #[trigger] acc@.contains(t) <==> (exists|ci: int|
                        0 <= ci < i && self.has_channel(#[trigger] ks[ci]) && self.targets_of(
                            ks[ci],
                        ).contains(t)),
        {
            proof {
                self.channels.lemma_view();
            }
            let c = self.channels.key_at(i);
            let targets = self.get_targets(c);
            acc.insert_all(&targets);
            proof {
                assert forall|t: u64|
                    #[trigger] acc@.contains(t) <==> (exists|ci: int|
                        0 <= ci < i + 1 && self.has_channel(#[trigger] ks[ci]) && self.targets_of(
                            ks[ci],
                        ).contains(t)) by {
                    if acc@.contains(t) {
                        if targets@.to_set().contains(t) {
                            assert(0 <= i < i + 1 && self.has_channel(ks[i as int])
                                && self.targets_of(ks[i as int]).contains(t));
                        } else {
                            let ci = choose|ci: int|
                                0 <= ci < i && self.has_channel(#[trigger] ks[ci])
                                    && self.targets_of(ks[ci]).contains(t);
                            assert(0 <= ci < i + 1 && self.has_channel(ks[ci]) && self.targets_of(
                                ks[ci],
                            ).contains(t));
                        }
                    }
                    if exists|ci: int|
                        0 <= ci < i + 1 && self.has_channel(#[trigger] ks[ci]) && self.targets_of(
                            ks[ci],
                        ).contains(t) {
                        let ci = choose|ci: int|
                            0 <= ci < i + 1 && self.has_channel(#[trigger] ks[ci])
                                && self.targets_of(ks[ci]).contains(t);
                        assert(ci < i || ks[ci] == ks[i as int]);
                    }
                }
            }
        }
        proof {
            self.channels.lemma_view();
            acc.lemma_view();
            assert(acc@ =~= self.all_targets()) by {
                assert forall|t: u64| acc@.contains(t) <==> self.all_targets().contains(t) by {
                    if acc@.contains(t) {
                        let ci = choose|ci: int|
                            0 <= ci < n && self.has_channel(#[trigger] ks[ci]) && self.targets_of(
                                ks[ci],
                            ).contains(t);
                    }
                    if self.all_targets().contains(t) {
                        let c = choose|c: u64|
                            (#[trigger] self.has_channel(c)) && self.targets_of(c).contains(t);
                        assert(ks.to_set().contains(c));
                        let ci = choose|ci: int| 0 <= ci < ks.len() && ks[ci] == c;
                        assert(0 <= ci < n && self.has_channel(ks[ci]) && self.targets_of(
                            ks[ci],
                        ).contains(t));
                    }
                }
            }
        }
        acc.len()
    }
}

} // verus!

verus! {

/// Law: every well-formed store keeps each channel's game list within
/// `GAME_LIMIT` and its target list within `TARGET_LIMIT`.
pub proof fn lemma_membership_limits(s: &Database, c: u64)
    requires
        s.wf(),
        s.has_channel(c),
    ensures
        s.games_of(c).len() <= GAME_LIMIT,
        s.targets_of(c).len() <= TARGET_LIMIT,
{
    s.lemma_wf_limits(c, 0);
}

/// Law: adding a batch of identifiers disjoint from the current membership
/// and then removing the same batch restores the membership exactly; this is
/// the round trip `add_games` followed by `remove_games` performs on the
/// game set of an otherwise undisturbed channel.
pub proof fn lemma_add_remove_round_trip(current: Set<u64>, batch: Seq<u64>)
    requires
        current.disjoint(batch.to_set()),
    ensures
        current.union(batch.to_set()).difference(batch.to_set()) == current,
{
    assert(current.union(batch.to_set()).difference(batch.to_set()) =~= current);
}

} // verus!
