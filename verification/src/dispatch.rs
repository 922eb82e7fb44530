//! The decisions of the message-processing layer: which chat messages are
//! soundboard commands, how a message becomes a sanitized command sequence,
//! and the per-guild channel and presence bookkeeping those decisions read.

use std::collections::HashMap;
use vstd::prelude::*;

use crate::sslang::{SayCommandV, SayCommands, sanitize_command, spec_parse};

verus! {

broadcast use vstd::std_specs::hash::group_hash_axioms;

/// Operational messages broadcast to a guild's running playback, which may
/// only interrupt it at its suspension points.
#[derive(Debug, Clone, PartialEq, Eq, Structural)]
pub enum OpsMessage {
    Stop,
}

/// Whether a chat message is addressed to the soundboard at all: it must
/// arrive in the text channel that the join command was given in, and its
/// author must sit in the same voice channel as the bot.
pub fn should_process(
    msg_channel_id: u64,
    bot_text_channel_id: Option<u64>,
    author_voice_channel_id: Option<u64>,
    bot_voice_channel_id: Option<u64>,
) -> (r: bool)
    ensures
        r == (bot_text_channel_id == Some(msg_channel_id) && bot_voice_channel_id
            == author_voice_channel_id),
{
    let text_ok = match bot_text_channel_id {
        Some(t) => t == msg_channel_id,
        None => false,
    };
    let voice_ok = match (bot_voice_channel_id, author_voice_channel_id) {
        (Some(a), Some(b)) => a == b,
        (None, None) => true,
        _ => false,
    };
    text_ok && voice_ok
}

/// The verified heart of message processing: parse the text and sanitize
/// the result. `None` is the silent "not a command" outcome that ordinary
/// chat text takes; it is never an error.
pub fn prepare_commands(text: &str) -> (r: Option<SayCommands>)
    ensures
        match r {
            Some(cmds) => {
                &&& spec_parse(text@) is Some
                &&& cmds@ == spec_parse(text@)->Some_0.map_values(
                    |c: SayCommandV| sanitize_command(c),
                )
            },
            None => spec_parse(text@) is None,
        },
{
    match SayCommands::from_str(text) {
        Ok(mut cmds) => {
            cmds.sanitize();
            Some(cmds)
        },
        Err(_) => None,
    }
}

/// Which voice and text channel the bot is joined to, per guild: the value
/// under a guild is `(voice_channel_id, text_channel_id)`.
pub struct ChannelManager {
    channels: HashMap<u64, (u64, u64)>,
}

impl ChannelManager {
    pub closed spec fn spec_channels(&self) -> Map<u64, (u64, u64)> {
        self.channels@
    }

    pub fn new() -> (r: Self)
        ensures
            ({
                let empty: Map<u64, (u64, u64)> = Map::empty();
                r.spec_channels() == empty
            }),
    {
        ChannelManager { channels: HashMap::new() }
    }

    /// Records where the bot joined; hands back what the guild was mapped
    /// to before, if anything.
    pub fn join(&mut self, guild_id: u64, voice_channel_id: u64, text_channel_id: u64) -> (r:
        Option<(u64, u64)>)
        ensures
            final(self).spec_channels() == old(self).spec_channels().insert(
                guild_id,
                (voice_channel_id, text_channel_id),
            ),
            match r {
                Some(prev) => old(self).spec_channels().contains_key(guild_id) && prev == old(
                    self,
                ).spec_channels()[guild_id],
                None => !old(self).spec_channels().contains_key(guild_id),
            },
    {
        self.channels.insert(guild_id, (voice_channel_id, text_channel_id))
    }

    /// Forgets the guild's channels; hands back what was recorded.
    pub fn leave(&mut self, guild_id: u64) -> (r: Option<(u64, u64)>)
        ensures
            final(self).spec_channels() == old(self).spec_channels().remove(guild_id),
            match r {
                Some(prev) => old(self).spec_channels().contains_key(guild_id) && prev == old(
                    self,
                ).spec_channels()[guild_id],
                None => !old(self).spec_channels().contains_key(guild_id),
            },
    {
        self.channels.remove(&guild_id)
    }

    pub fn get_voice_channel_id(&self, guild_id: u64) -> (r: Option<u64>)
        ensures
            match r {
                Some(v) => self.spec_channels().contains_key(guild_id)
                    && v == self.spec_channels()[guild_id].0,
                None => !self.spec_channels().contains_key(guild_id),
            },
    {
        match self.channels.get(&guild_id) {
            Some(p) => Some(p.0),
            None => None,
        }
    }

    pub fn get_text_channel_id(&self, guild_id: u64) -> (r: Option<u64>)
        ensures
            match r {
                Some(v) => self.spec_channels().contains_key(guild_id)
                    && v == self.spec_channels()[guild_id].1,
                None => !self.spec_channels().contains_key(guild_id),
            },
    {
        match self.channels.get(&guild_id) {
            Some(p) => Some(p.1),
            None => None,
        }
    }
}

impl Default for ChannelManager {
    fn default() -> (r: Self)
        ensures
            ({
                let empty: Map<u64, (u64, u64)> = Map::empty();
                r.spec_channels() == empty
            }),
    {
        ChannelManager::new()
    }
}

fn vec_contains(v: &Vec<u64>, x: u64) -> (r: bool)
    ensures
        r == v@.contains(x),
{
    let n = v.len();
    let mut i: usize = 0;
    while i < n
        invariant
            i <= n,
            n == v@.len(),
            forall|j: int| 0 <= j < i ==> v@[j] != x,
        decreases n - i,
    {
        if v[i] == x {
            return true;
        }
        i = i + 1;
    }
    false
}

proof fn lemma_push_contains(s: Seq<u64>, y: u64, x: u64)
    ensures
        s.push(y).contains(x) == (s.contains(x) || x == y),
{
    if s.push(y).contains(x) {
        let idx = choose|idx: int| 0 <= idx < s.push(y).len() && s.push(y)[idx] == x;
        if idx < s.len() {
            assert(s[idx] == x);
        }
    }
    if s.contains(x) {
        let idx = choose|idx: int| 0 <= idx < s.len() && s[idx] == x;
        assert(s.push(y)[idx] == x);
    }
    if x == y {
        assert(s.push(y)[s.len() as int] == x);
    }
}

/// Which users sit in the bot's voice channel, per guild. The bot has to
/// track this itself to tell joins from leaves.
pub struct ChannelUserManager {
    users: HashMap<u64, Vec<u64>>,
}

impl ChannelUserManager {
    /// The set of users recorded for `guild_id`.
    pub closed spec fn spec_users(&self, guild_id: u64) -> Seq<u64> {
        if self.users@.contains_key(guild_id) {
            self.users@[guild_id]@
        } else {
            Seq::empty()
        }
    }

    pub fn new() -> (r: Self)
        ensures
            forall|g: u64| r.spec_users(g) == Seq::<u64>::empty(),
    {
        ChannelUserManager { users: HashMap::new() }
    }

    /// The users currently recorded for the guild.
    pub fn get(&self, guild_id: u64) -> (r: Vec<u64>)
        ensures
            r@ == self.spec_users(guild_id),
    {
        match self.users.get(&guild_id) {
            Some(v) => v.clone(),
            None => Vec::new(),
        }
    }

    /// Records a user; `true` exactly when the user was not there before.
    pub fn add(&mut self, guild_id: u64, user_id: u64) -> (r: bool)
        ensures
            r == !old(self).spec_users(guild_id).contains(user_id),
            r ==> final(self).spec_users(guild_id) == old(self).spec_users(guild_id).push(user_id),
            !r ==> final(self).spec_users(guild_id) == old(self).spec_users(guild_id),
            forall|g: u64| g != guild_id ==> final(self).spec_users(g) == old(self).spec_users(g),
    {
        let mut set = match self.users.get(&guild_id) {
            Some(v) => v.clone(),
            None => Vec::new(),
        };
        if vec_contains(&set, user_id) {
            self.users.insert(guild_id, set);
            false
        } else {
            set.push(user_id);
            self.users.insert(guild_id, set);
            true
        }
    }

    /// Unrecords a user; hands the id back exactly when it was there.
    pub fn remove(&mut self, guild_id: u64, user_id: u64) -> (r: Option<u64>)
        ensures
            match r {
                Some(u) => u == user_id && old(self).spec_users(guild_id).contains(user_id),
                None => !old(self).spec_users(guild_id).contains(user_id),
            },
            !final(self).spec_users(guild_id).contains(user_id),
            forall|g: u64| g != guild_id ==> final(self).spec_users(g) == old(self).spec_users(g),
            forall|u: u64|
                u != user_id ==> (final(self).spec_users(guild_id).contains(u) == old(
                    self,
                ).spec_users(guild_id).contains(u)),
    {
        let set = match self.users.get(&guild_id) {
            Some(v) => v.clone(),
            None => Vec::new(),
        };
        let mut kept: Vec<u64> = Vec::new();
        let mut found = false;
        let n = set.len();
        let mut i: usize = 0;
        while i < n
            invariant
                i <= n,
                n == set@.len(),
                found == set@.subrange(0, i as int).contains(user_id),
                !kept@.contains(user_id),
                forall|u: u64|
                    u != user_id ==> (kept@.contains(u) == set@.subrange(0, i as int).contains(u)),
            decreases n - i,
        {
            let ghost pre = set@.subrange(0, i as int);
            let ghost pre_kept = kept@;
            let u = set[i];
            if u == user_id {
                found = true;
            } else {
                kept.push(u);
            }
            proof {
                assert(set@.subrange(0, (i + 1) as int) =~= pre.push(set@[i as int]));
                lemma_push_contains(pre, set@[i as int], user_id);
                if u != user_id {
                    lemma_push_contains(pre_kept, u, user_id);
                }
                assert forall|x: u64| x != user_id implies kept@.contains(x) == set@.subrange(
                    0,
                    (i + 1) as int,
                ).contains(x) by {
                    lemma_push_contains(pre, set@[i as int], x);
                    if u != user_id {
                        lemma_push_contains(pre_kept, u, x);
                    }
                }
            }
            i = i + 1;
        }
        proof {
            assert(set@.subrange(0, n as int) =~= set@);
        }
        self.users.insert(guild_id, kept);
        if found {
            Some(user_id)
        } else {
            None
        }
    }
}

impl Default for ChannelUserManager {
    fn default() -> (r: Self)
        ensures
            forall|g: u64| r.spec_users(g) == Seq::<u64>::empty(),
    {
        ChannelUserManager::new()
    }
}

/// What a voice-state change means for the user who caused it, judged from
/// the channel's current members against the recorded ones.
#[derive(Debug, PartialEq, Eq, Clone, Copy, Structural)]
pub enum PresenceChange {
    /// The user is in the channel now and was not recorded: they joined.
    Joined,
    /// The user was recorded and is gone now: they left.
    Left,
    /// Neither: nothing to play.
    Unchanged,
}

/// Decides whether the acting user joined or left the bot's voice channel,
/// exactly as the recorded membership and the current one differ.
pub fn presence_change(current: &Vec<u64>, recorded: &Vec<u64>, actioned_user: u64) -> (r:
    PresenceChange)
    ensures
        r == PresenceChange::Joined <==> (current@.contains(actioned_user) && !recorded@.contains(
            actioned_user,
        )),
        r == PresenceChange::Left <==> (!current@.contains(actioned_user) && recorded@.contains(
            actioned_user,
        )),
{
    let now = vec_contains(current, actioned_user);
    let before = vec_contains(recorded, actioned_user);
    if now && !before {
        PresenceChange::Joined
    } else if !now && before {
        PresenceChange::Left
    } else {
        PresenceChange::Unchanged
    }
}

} // verus!
