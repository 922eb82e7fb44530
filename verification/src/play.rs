//! Decode cache, per-clip duration bookkeeping, the playback schedule, and
//! the loudness-decay budget of one playback session.

use std::sync::Arc;
use vstd::prelude::*;

use crate::sound::{SoundFile, SoundStorage, find_key, lower_of};
use crate::sslang::{Action, SayCommand, SayCommandV, ascii_to_string, dec_str, digit_char,
    format_u64};

verus! {

/// Full loudness budget of a fresh playback session.
pub const MAX_CAPACITY: u32 = 600;

/// Largest single loudness assignment; half the full budget, so that a burst
/// of grants decays geometrically from the very first one.
pub const MAX_ASSIGNMENT: u32 = 300;

/// Volume of a sound granted a full assignment, in millionths of full scale.
pub const BASE_VOLUME_MICRO: u32 = 50_000;

/// What one grant takes from a session whose remaining budget is `capacity`.
pub open spec fn grant(capacity: u32) -> u32 {
    if MAX_ASSIGNMENT <= capacity / 2 {
        MAX_ASSIGNMENT
    } else {
        capacity / 2
    }
}

/// Volume, in millionths of full scale, of a sound granted `assignment`.
pub open spec fn volume_of(assignment: u32) -> u32 {
    ((BASE_VOLUME_MICRO as int * assignment as int) / (MAX_ASSIGNMENT as int)) as u32
}

/// Loudness budget of one playback session. Every dispatched sound borrows
/// an assignment of at most half the remaining budget and gives it back once
/// its playing duration has elapsed, so rapid bursts decay in volume instead
/// of summing toward clipping.
pub struct VolumeManager {
    capacity: u32,
}

impl VolumeManager {
    pub closed spec fn spec_capacity(&self) -> u32 {
        self.capacity
    }

    pub fn new() -> (r: Self)
        ensures
            r.spec_capacity() == MAX_CAPACITY,
    {
        VolumeManager { capacity: MAX_CAPACITY }
    }

    pub fn capacity(&self) -> (r: u32)
        ensures
            r == self.spec_capacity(),
    {
        self.capacity
    }

    /// Grants `min(MAX_ASSIGNMENT, capacity / 2)`, subtracts it from the
    /// budget, and returns `(volume, assignment)` with
    /// `volume = BASE_VOLUME_MICRO * assignment / MAX_ASSIGNMENT`.
    pub fn get_volume_and_assignment(&mut self) -> (r: (u32, u32))
        ensures
            r.1 == grant(old(self).spec_capacity()),
            r.0 == volume_of(r.1),
            final(self).spec_capacity() == old(self).spec_capacity() - r.1,
    {
        let assignment = if MAX_ASSIGNMENT <= self.capacity / 2 {
            MAX_ASSIGNMENT
        } else {
            self.capacity / 2
        };
        self.capacity = self.capacity - assignment;
        let volume = (BASE_VOLUME_MICRO * assignment) / MAX_ASSIGNMENT;
        (volume, assignment)
    }

    /// Gives an assignment back once its sound has finished playing.
    pub fn return_assignment(&mut self, assignment: u32)
        requires
            old(self).spec_capacity() + assignment <= u32::MAX,
        ensures
            final(self).spec_capacity() == old(self).spec_capacity() + assignment,
    {
        self.capacity = self.capacity + assignment;
    }

    /// Forces the budget back to the maximum, discarding pending returns;
    /// used after a forced stop of every dispatched clip.
    pub fn reset(&mut self)
        ensures
            final(self).spec_capacity() == MAX_CAPACITY,
    {
        self.capacity = MAX_CAPACITY;
    }
}

impl Default for VolumeManager {
    fn default() -> (r: Self)
        ensures
            r.spec_capacity() == MAX_CAPACITY,
    {
        VolumeManager::new()
    }
}

/// Three successive assignments drawn from a fresh session strictly decrease,
/// in assignment and in granted volume alike.
pub proof fn lemma_volume_decay()
    ensures
        ({
            let a1 = grant(MAX_CAPACITY);
            let a2 = grant((MAX_CAPACITY - a1) as u32);
            let a3 = grant((MAX_CAPACITY - a1 - a2) as u32);
            a1 > a2 > a3 && volume_of(a1) > volume_of(a2) > volume_of(a3)
        }),
{
}

// ---------------------------------------------------------------------------
// Decoded clips and their durations
// ---------------------------------------------------------------------------

/// The hard cap on any single encode and on a whole sequence's wall-clock
/// playing time, in milliseconds.
pub const MAX_PLAYABLE_MS: u64 = 180_000;

/// How long a decoded clip audibly plays: the file's remainder past `start`,
/// clamped to the requested `duration` if any, scaled by `100 / speed`
/// (unbounded when `speed` is zero), clamped to `wait` when the stop flag is
/// set, and finally to the encode cap.
pub open spec fn playing_duration_ms(file_ms: u32, c: SayCommandV) -> int {
    let base: int = if file_ms >= c.start {
        file_ms - c.start
    } else {
        0
    };
    let capped: int = match c.duration {
        Some(d) => if d < base {
            d as int
        } else {
            base
        },
        None => base,
    };
    let scaled: int = if c.speed == 0 {
        u64::MAX as int
    } else {
        capped * 100 / (c.speed as int)
    };
    let stopped: int = if c.stop && (c.wait as int) < scaled {
        c.wait as int
    } else {
        scaled
    };
    if stopped > MAX_PLAYABLE_MS as int {
        MAX_PLAYABLE_MS as int
    } else {
        stopped
    }
}

/// How long the scheduler pauses before the next item: the author's `wait`
/// gap for `Synthesize`, the full playing duration for `Concat`.
pub open spec fn blocking_duration_ms(playing: int, c: SayCommandV) -> int {
    match c.action {
        Action::Synthesize => c.wait as int,
        Action::Concat => playing,
    }
}

/// A back-to-back item blocks for exactly as long as it plays.
pub proof fn lemma_concat_blocking(playing: int, c: SayCommandV)
    requires
        c.action == Action::Concat,
    ensures
        blocking_duration_ms(playing, c) == playing,
{
}

/// One decoded clip: the transcoder's raw PCM output together with the two
/// durations the scheduler needs.
#[derive(Debug, PartialEq, Eq, Clone)]
pub struct DecodedSaySound {
    pub decoded_data: Vec<u8>,
    /// How long the scheduler pauses before the next item, in ms.
    pub blocking_duration_ms: u64,
    /// How long this clip audibly plays, in ms.
    pub playing_duration_ms: u64,
}

/// The mathematical value of a [`DecodedSaySound`].
pub struct DecodedSaySoundV {
    pub decoded_data: Seq<u8>,
    pub blocking_duration_ms: u64,
    pub playing_duration_ms: u64,
}

impl View for DecodedSaySound {
    type V = DecodedSaySoundV;

    open spec fn view(&self) -> DecodedSaySoundV {
        DecodedSaySoundV {
            decoded_data: self.decoded_data@,
            blocking_duration_ms: self.blocking_duration_ms,
            playing_duration_ms: self.playing_duration_ms,
        }
    }
}

impl DecodedSaySound {
    /// Wraps the transcoder's output for one command with the durations the
    /// schedule is advanced by.
    pub fn from_command_and_file(command: &SayCommand, file: &SoundFile, decoded_data: Vec<u8>)
        -> (r: Self)
        requires
            file@.has_metadata(),
        ensures
            r@.decoded_data == decoded_data@,
            r@.playing_duration_ms == playing_duration_ms(file@.meta().duration_ms, command@),
            r@.blocking_duration_ms == blocking_duration_ms(
                playing_duration_ms(file@.meta().duration_ms, command@),
                command@,
            ),
    {
        let file_ms = file.duration();
        let base: u64 = if file_ms >= command.start {
            (file_ms - command.start) as u64
        } else {
            0
        };
        let capped: u64 = match command.duration {
            Some(d) => if (d as u64) < base {
                d as u64
            } else {
                base
            },
            None => base,
        };
        let scaled: u64 = if command.speed == 0 {
            u64::MAX
        } else {
            capped * 100 / (command.speed as u64)
        };
        let stopped: u64 = if command.stop && (command.wait as u64) < scaled {
            command.wait as u64
        } else {
            scaled
        };
        let playing: u64 = if stopped > MAX_PLAYABLE_MS {
            MAX_PLAYABLE_MS
        } else {
            stopped
        };
        let blocking: u64 = match command.action {
            Action::Synthesize => command.wait as u64,
            Action::Concat => playing,
        };
        DecodedSaySound {
            decoded_data,
            blocking_duration_ms: blocking,
            playing_duration_ms: playing,
        }
    }
}

// ---------------------------------------------------------------------------
// The decode cache
// ---------------------------------------------------------------------------

/// What the cache holds: every key that was inserted and not evicted, with
/// the decoded clip that was inserted under it.
pub uninterp spec fn cache_contents(c: &SaySoundCache) -> Map<SayCommandV, DecodedSaySoundV>;

/// Bounded cache from a full `SayCommand` — every field of it — to the
/// shared decoded clip, with time-to-idle eviction. The contracts speak of
/// `cache_contents`; eviction may drop entries at any time, so a lookup is
/// never owed a hit, but a hit only ever returns what was inserted under
/// exactly that key.
#[verifier::external_body]
pub struct SaySoundCache {
    cache: moka::sync::Cache<SayCommand, Arc<DecodedSaySound>>,
}

impl SaySoundCache {
    /// Relies on `moka::sync::CacheBuilder`: `build` returns a cache with no
    /// entries, holding at most `max_capacity` of them, each evicted once
    /// idle for `time_to_idle_ms`. The builder panics on an expiry beyond
    /// 1000 years, so that bound is required here.
    #[verifier::external_body]
    pub fn new(max_capacity: u64, time_to_idle_ms: u64) -> (r: Self)
        requires
            time_to_idle_ms <= 31_536_000_000_000,
        ensures
            ({
                let empty: Map<SayCommandV, DecodedSaySoundV> = Map::empty();
                cache_contents(&r) == empty
            }),
    {
        SaySoundCache {
            cache: moka::sync::Cache::builder().max_capacity(max_capacity).time_to_idle(
                std::time::Duration::from_millis(time_to_idle_ms),
            ).build(),
        }
    }

    /// Relies on `moka::sync::Cache::get`: it returns a clone of the value
    /// inserted under an equal key, or nothing — a miss is always possible,
    /// because eviction is bounded and idle-based.
    #[verifier::external_body]
    pub fn get(&self, command: &SayCommand) -> (r: Option<Arc<DecodedSaySound>>)
        ensures
            match r {
                Some(v) => {
                    &&& cache_contents(self).contains_key(command@)
                    &&& v@ == cache_contents(self)[command@]
                },
                None => true,
            },
    {
        self.cache.get(command)
    }

    /// Relies on `moka::sync::Cache::insert`: the value is stored under the
    /// key, replacing any earlier entry for it.
    #[verifier::external_body]
    pub fn insert(&mut self, command: SayCommand, decoded: Arc<DecodedSaySound>)
        ensures
            cache_contents(final(self)) == cache_contents(old(self)).insert(command@, decoded@),
    {
        self.cache.insert(command, decoded);
    }

    /// Relies on `moka::sync::Cache::invalidate_all`: every entry is
    /// discarded; required after catalog changes so stale clips cannot be
    /// replayed.
    #[verifier::external_body]
    pub fn clean(&mut self)
        ensures
            ({
                let empty: Map<SayCommandV, DecodedSaySoundV> = Map::empty();
                cache_contents(final(self)) == empty
            }),
    {
        self.cache.invalidate_all();
    }
}

/// The cache key is the whole command: two commands that differ in their
/// speed are distinct keys, so inserting under one never creates or changes
/// the entry under the other.
pub proof fn lemma_cache_key_sensitivity(
    m: Map<SayCommandV, DecodedSaySoundV>,
    k1: SayCommandV,
    k2: SayCommandV,
    v: DecodedSaySoundV,
)
    requires
        k1.speed != k2.speed,
    ensures
        k1 != k2,
        m.insert(k2, v).contains_key(k1) == m.contains_key(k1),
        m.contains_key(k1) ==> m.insert(k2, v)[k1] == m[k1],
{
}

/// What one command of a sequence needs next: a cached clip can be played
/// at once, an uncached one names the file the transcoder must decode, and
/// a name missing from the catalog silently drops the command.
pub enum ResolveStep {
    Cached(Arc<DecodedSaySound>),
    Decode(SoundFile),
    Skip,
}

/// One resolution step of the sequence processor: cache first, catalog
/// second, drop silently when the name is unknown.
pub fn resolve_step(cache: &SaySoundCache, storage: &SoundStorage, command: &SayCommand) -> (r:
    ResolveStep)
    ensures
        match r {
            ResolveStep::Cached(d) => {
                &&& cache_contents(cache).contains_key(command@)
                &&& d@ == cache_contents(cache)[command@]
            },
            ResolveStep::Decode(f) => {
                &&& find_key(storage.keys(), lower_of(command@.name)) >= 0
                &&& f@ == storage.files()[find_key(storage.keys(), lower_of(command@.name))]
            },
            ResolveStep::Skip => find_key(storage.keys(), lower_of(command@.name)) == -1,
        },
{
    if let Some(decoded) = cache.get(command) {
        return ResolveStep::Cached(decoded);
    }
    match storage.get(command.name.as_str()) {
        Some(file) => ResolveStep::Decode(file),
        None => ResolveStep::Skip,
    }
}

/// Shares a freshly decoded clip and records it under its command, so every
/// later identical command reuses the same decoded audio.
pub fn record_decoded(cache: &mut SaySoundCache, command: SayCommand, decoded: DecodedSaySound)
    -> (r: Arc<DecodedSaySound>)
    ensures
        r@ == decoded@,
        cache_contents(final(cache)) == cache_contents(old(cache)).insert(command@, decoded@),
{
    let shared = Arc::new(decoded);
    cache.insert(command, Arc::clone(&shared));
    shared
}

// ---------------------------------------------------------------------------
// The transcoder invocation
// ---------------------------------------------------------------------------

/// `n` rendered as exactly four decimal digits, zero-padded.
pub open spec fn dec4_str(n: int) -> Seq<char> {
    seq![
        digit_char(n / 1000 % 10),
        digit_char(n / 100 % 10),
        digit_char(n / 10 % 10),
        digit_char(n % 10),
    ]
}

/// The `atempo` factor that compensates the pitch shift: `100 / pitch`,
/// rendered with four fractional digits.
pub open spec fn atempo_str(pitch: u32) -> Seq<char> {
    let q = 1_000_000int / (pitch as int);
    dec_str(q / 10000) + seq!['.'] + dec4_str(q % 10000)
}

/// The rate the source is re-read at: the file's own rate scaled by speed
/// and pitch percentages.
pub open spec fn asetrate_of(rate: u32, speed: u32, pitch: u32) -> int {
    (rate as int) * (speed as int) * (pitch as int) / 10000
}

/// The filter chain handed to the transcoder: re-rate, tempo compensation,
/// resample back to the file's rate, then any caller-supplied raw filter.
pub open spec fn filter_chain_str(c: SayCommandV, rate: u32) -> Seq<char> {
    "asetrate="@ + dec_str(asetrate_of(rate, c.speed, c.pitch)) + ",atempo="@ + atempo_str(c.pitch)
        + ",aresample="@ + dec_str(rate as int) + (match c.audio_filter {
        Some(f) => seq![','] + f,
        None => Seq::empty(),
    })
}

/// The trim length: the requested duration, else the wait gap when the stop
/// flag truncates there, else the remainder of the file.
pub open spec fn trim_length_str(c: SayCommandV) -> Seq<char> {
    match c.duration {
        Some(d) => dec_str(d as int) + "ms"@,
        None => if c.stop {
            dec_str(c.wait as int) + "ms"@
        } else {
            "0"@
        },
    }
}

/// The transcoder's whole argument list for one command: trim offsets, the
/// source path, the fixed output format (float PCM, the source channel
/// count, 48 kHz, capped at 180 s), and the filter chain.
pub open spec fn transcoder_args_spec(c: SayCommandV, f: crate::sound::SoundFileV) -> Seq<
    Seq<char>,
> {
    seq![
        "-ss"@,
        dec_str(c.start as int) + "ms"@,
        "-t"@,
        trim_length_str(c),
        "-i"@,
        f.path,
        "-f"@,
        "wav"@,
        "-ac"@,
        dec_str(f.meta().channel_count as int),
        "-ar"@,
        "48000"@,
        "-acodec"@,
        "pcm_f32le"@,
        "-t"@,
        "180"@,
        "-af"@,
        filter_chain_str(c, f.meta().sample_rate_hz),
        "-"@,
    ]
}

/// Renders the four-digit zero-padded fraction.
fn format_dec4(n: u32) -> (r: String)
    requires
        n < 10000,
    ensures
        r@ == dec4_str(n as int),
{
    let bytes: Vec<u8> = vec![
        48 + ((n / 1000) % 10) as u8,
        48 + ((n / 100) % 10) as u8,
        48 + ((n / 10) % 10) as u8,
        48 + (n % 10) as u8,
    ];
    let s = ascii_to_string(&bytes);
    proof {
        assert(s@ =~= dec4_str(n as int));
    }
    s
}

/// Builds the filter chain of [`filter_chain_str`].
fn filter_chain(command: &SayCommand, rate: u32) -> (r: String)
    requires
        1 <= command@.pitch <= 200,
    ensures
        r@ == filter_chain_str(command@, rate),
{
    proof {
        assert((rate as int) * (command.speed as int) <= 0xFFFF_FFFFint * 0xFFFF_FFFF)
            by (nonlinear_arith)
            requires
                rate <= 0xFFFF_FFFFu32,
                command.speed <= 0xFFFF_FFFFu32,
        ;
        assert((rate as int) * (command.speed as int) * (command.pitch as int) <= 0xFFFF_FFFFint
            * 0xFFFF_FFFF * 200) by (nonlinear_arith)
            requires
                rate <= 0xFFFF_FFFFu32,
                command.speed <= 0xFFFF_FFFFu32,
                command.pitch <= 200,
        ;
    }
    let prod: u128 = (rate as u128) * (command.speed as u128) * (command.pitch as u128);
    let aset128: u128 = prod / 10000;
    let aset: u64 = aset128 as u64;
    proof {
        assert(aset == asetrate_of(rate, command@.speed, command@.pitch));
    }
    let mut s = String::from_str("asetrate=");
    let t = format_u64(aset);
    s.append(t.as_str());
    s.append(",atempo=");
    let q: u32 = 1_000_000 / command.pitch;
    let t = format_u64((q / 10000) as u64);
    s.append(t.as_str());
    s.append(".");
    let t = format_dec4(q % 10000);
    s.append(t.as_str());
    s.append(",aresample=");
    let t = format_u64(rate as u64);
    s.append(t.as_str());
    if let Some(ref f) = command.audio_filter {
        s.append(",");
        s.append(f.as_str());
    }
    proof {
        reveal_strlit("asetrate=");
        reveal_strlit(",atempo=");
        reveal_strlit(".");
        reveal_strlit(",aresample=");
        reveal_strlit(",");
        assert(s@ =~= filter_chain_str(command@, rate));
    }
    s
}

/// The trim length of [`trim_length_str`].
fn trim_length(command: &SayCommand) -> (r: String)
    ensures
        r@ == trim_length_str(command@),
{
    proof {
        reveal_strlit("ms");
        reveal_strlit("0");
    }
    match command.duration {
        Some(d) => {
            let mut s = format_u64(d as u64);
            s.append("ms");
            proof {
                assert(s@ =~= trim_length_str(command@));
            }
            s
        },
        None => {
            if command.stop {
                let mut s = format_u64(command.wait as u64);
                s.append("ms");
                proof {
                    assert(s@ =~= trim_length_str(command@));
                }
                s
            } else {
                String::from_str("0")
            }
        },
    }
}

/// The argument list the transcoder process is started with on a cache
/// miss. The pitch must already be sanitized into `[1, 200]`.
pub fn transcoder_args(command: &SayCommand, file: &SoundFile) -> (r: Vec<String>)
    requires
        file@.has_metadata(),
        1 <= command@.pitch <= 200,
    ensures
        r@.map_values(|s: String| s@) == transcoder_args_spec(command@, file@),
{
    let mut args: Vec<String> = Vec::new();
    args.push(String::from_str("-ss"));
    let mut ss = format_u64(command.start as u64);
    ss.append("ms");
    args.push(ss);
    args.push(String::from_str("-t"));
    args.push(trim_length(command));
    args.push(String::from_str("-i"));
    args.push(file.path.clone());
    args.push(String::from_str("-f"));
    args.push(String::from_str("wav"));
    args.push(String::from_str("-ac"));
    args.push(format_u64(file.channel_count() as u64));
    args.push(String::from_str("-ar"));
    args.push(String::from_str("48000"));
    args.push(String::from_str("-acodec"));
    args.push(String::from_str("pcm_f32le"));
    args.push(String::from_str("-t"));
    args.push(String::from_str("180"));
    args.push(String::from_str("-af"));
    args.push(filter_chain(command, file.sample_rate_hz()));
    args.push(String::from_str("-"));
    proof {
        reveal_strlit("-ss");
        reveal_strlit("ms");
        reveal_strlit("-t");
        reveal_strlit("-i");
        reveal_strlit("-f");
        reveal_strlit("wav");
        reveal_strlit("-ac");
        reveal_strlit("-ar");
        reveal_strlit("48000");
        reveal_strlit("-acodec");
        reveal_strlit("pcm_f32le");
        reveal_strlit("180");
        reveal_strlit("-af");
        reveal_strlit("-");
        assert(args@.map_values(|s: String| s@) =~= transcoder_args_spec(command@, file@));
    }
    args
}

// ---------------------------------------------------------------------------
// The playback schedule
// ---------------------------------------------------------------------------

/// The wall-clock bookkeeping of one playing sequence. `elapsed_ms` is how
/// far the scheduler has advanced; `estimated_total_ms` is a running maximum
/// of when dispatched clips will fall silent — a maximum, not a sum, since a
/// later item may start inside a predecessor's tail.
pub struct PlaybackSchedule {
    pub elapsed_ms: u64,
    pub estimated_total_ms: u64,
}

impl PlaybackSchedule {
    pub fn new() -> (r: Self)
        ensures
            r.elapsed_ms == 0,
            r.estimated_total_ms == 0,
    {
        PlaybackSchedule { elapsed_ms: 0, estimated_total_ms: 0 }
    }

    /// Accounts for one dispatched clip: the estimate absorbs the clip's end
    /// time, and the clock advances by its blocking duration, for which the
    /// caller then really waits.
    pub fn on_dispatch(&mut self, playing_ms: u64, blocking_ms: u64)
        requires
            old(self).elapsed_ms + playing_ms <= u64::MAX,
            old(self).elapsed_ms + blocking_ms <= u64::MAX,
        ensures
            final(self).estimated_total_ms == (if old(self).elapsed_ms + playing_ms > old(
                self,
            ).estimated_total_ms {
                old(self).elapsed_ms + playing_ms
            } else {
                old(self).estimated_total_ms as int
            }),
            final(self).elapsed_ms == old(self).elapsed_ms + blocking_ms,
    {
        let end = self.elapsed_ms + playing_ms;
        if end > self.estimated_total_ms {
            self.estimated_total_ms = end;
        }
        self.elapsed_ms = self.elapsed_ms + blocking_ms;
    }

    /// After the sequence finished within its deadline: how much longer to
    /// let tails play before force-stopping every clip, or nothing when the
    /// estimate already fits.
    pub fn overshoot_wait(&self, deadline_ms: u64) -> (r: Option<u64>)
        ensures
            match r {
                Some(w) => {
                    &&& self.estimated_total_ms > deadline_ms
                    &&& w == (if self.elapsed_ms <= deadline_ms {
                        deadline_ms - self.elapsed_ms
                    } else {
                        0
                    })
                },
                None => self.estimated_total_ms <= deadline_ms,
            },
    {
        if self.estimated_total_ms > deadline_ms {
            if self.elapsed_ms <= deadline_ms {
                Some(deadline_ms - self.elapsed_ms)
            } else {
                Some(0)
            }
        } else {
            None
        }
    }
}

} // verus!
