//! Soundboard engine: a say-command language, a sound catalog with fuzzy
//! search, a keyed decode cache, and a playback scheduler with loudness
//! decay. Raw chat text goes in; a sanitized command sequence comes out and
//! is scheduled clip by clip, each resolved through the cache and the
//! catalog.

pub mod dispatch;
pub mod play;
pub mod sound;
pub mod sslang;

pub use crate::dispatch::{ChannelManager, ChannelUserManager, OpsMessage, PresenceChange};
pub use crate::play::{
    DecodedSaySound, PlaybackSchedule, ResolveStep, SaySoundCache, VolumeManager,
};
pub use crate::sound::{Metadata, SoundFile, SoundStorage, WatchAction, WatchEventKind};
pub use crate::sslang::{Action, SayCommand, SayCommands};
