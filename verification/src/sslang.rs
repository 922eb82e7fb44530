//! The say-command language: one or more say-items separated by `;`
//! (sequential) or `|` (back-to-back), each a sound name followed by
//! repeatable options where the last occurrence of an option wins.
//!
//! The grammar is parsed by recursive descent over the characters of the
//! input. Every executable parsing function is proved equal to a
//! specification-level parser (`spec_parse` and its helpers), so the
//! contracts below pin the parse result down exactly.

use vstd::prelude::*;

verus! {

/// How the scheduler advances past a say-item: `Synthesize` waits the item's
/// own `wait` gap; `Concat` waits the item's full playing duration.
#[derive(Debug, PartialEq, Eq, Clone, Copy, Hash, Structural)]
pub enum Action {
    Synthesize,
    Concat,
}

/// One parsed say-item. Times are in milliseconds; `speed` and `pitch` are
/// percentages. `wait` defaults to 0 ms.
#[derive(Debug, PartialEq, Eq, Clone, Hash)]
pub struct SayCommand {
    pub name: String,
    pub speed: u32,
    pub pitch: u32,
    pub wait: u32,
    pub start: u32,
    pub duration: Option<u32>,
    pub stop: bool,
    pub action: Action,
    pub audio_filter: Option<String>,
}

/// The mathematical value of a `SayCommand`: the same fields with strings
/// as character sequences.
pub struct SayCommandV {
    pub name: Seq<char>,
    pub speed: u32,
    pub pitch: u32,
    pub wait: u32,
    pub start: u32,
    pub duration: Option<u32>,
    pub stop: bool,
    pub action: Action,
    pub audio_filter: Option<Seq<char>>,
}

impl View for SayCommand {
    type V = SayCommandV;

    open spec fn view(&self) -> SayCommandV {
        SayCommandV {
            name: self.name@,
            speed: self.speed,
            pitch: self.pitch,
            wait: self.wait,
            start: self.start,
            duration: self.duration,
            stop: self.stop,
            action: self.action,
            audio_filter: match self.audio_filter {
                Some(ref f) => Some(f@),
                None => None,
            },
        }
    }
}

/// The value every option of a say-item starts from.
pub open spec fn default_command(name: Seq<char>) -> SayCommandV {
    SayCommandV {
        name: name,
        speed: 100,
        pitch: 100,
        wait: 0,
        start: 0,
        duration: None,
        stop: false,
        action: Action::Synthesize,
        audio_filter: None,
    }
}

impl Default for SayCommand {
    /// An empty name with every option at its default.
    fn default() -> (r: Self)
        ensures
            r@ == default_command(Seq::<char>::empty()),
    {
        SayCommand {
            name: String::new(),
            speed: 100,
            pitch: 100,
            wait: 0,
            start: 0,
            duration: None,
            stop: false,
            action: Action::Synthesize,
            audio_filter: None,
        }
    }
}

impl SayCommand {
    pub fn new(
        name: String,
        speed: u32,
        pitch: u32,
        wait: u32,
        start: u32,
        duration: Option<u32>,
        stop: bool,
        action: Action,
        audio_filter: Option<String>,
    ) -> (r: Self)
        ensures
            r == (SayCommand { name, speed, pitch, wait, start, duration, stop, action, audio_filter }),
    {
        SayCommand { name, speed, pitch, wait, start, duration, stop, action, audio_filter }
    }
}

// ---------------------------------------------------------------------------
// Character classes
// ---------------------------------------------------------------------------

/// The whitespace that may surround every token: space, tab, newline,
/// carriage return.
pub open spec fn is_space_char(c: char) -> bool {
    c == ' ' || c == '\t' || c == '\n' || c == '\r'
}

pub open spec fn is_digit_char(c: char) -> bool {
    48 <= c as u32 <= 57
}

pub open spec fn digit_val(c: char) -> int {
    c as u32 - 48
}

/// A sound name is a run of ASCII alphanumerics and `- _ ^ ! .`.
pub open spec fn is_name_char(c: char) -> bool {
    ||| 48 <= c as u32 <= 57
    ||| 65 <= c as u32 <= 90
    ||| 97 <= c as u32 <= 122
    ||| c == '-'
    ||| c == '_'
    ||| c == '^'
    ||| c == '!'
    ||| c == '.'
}

/// An audio-filter value runs up to the next `;` or space.
pub open spec fn is_filter_end_char(c: char) -> bool {
    c == ';' || c == ' '
}

fn char_is_space(c: char) -> (r: bool)
    ensures
        r == is_space_char(c),
{
    c == ' ' || c == '\t' || c == '\n' || c == '\r'
}

fn char_is_digit(c: char) -> (r: bool)
    ensures
        r == is_digit_char(c),
{
    let u = c as u32;
    48 <= u && u <= 57
}

fn char_is_name(c: char) -> (r: bool)
    ensures
        r == is_name_char(c),
{
    let u = c as u32;
    (48 <= u && u <= 57) || (65 <= u && u <= 90) || (97 <= u && u <= 122) || c == '-' || c == '_'
        || c == '^' || c == '!' || c == '.'
}

fn char_is_filter_end(c: char) -> (r: bool)
    ensures
        r == is_filter_end_char(c),
{
    c == ';' || c == ' '
}

// ---------------------------------------------------------------------------
// Scanners: each returns the first index at or after `i` where its class
// stops matching.
// ---------------------------------------------------------------------------

pub open spec fn skip_spaces(s: Seq<char>, i: int) -> int
    decreases s.len() - i,
{
    if 0 <= i < s.len() && is_space_char(s[i]) {
        skip_spaces(s, i + 1)
    } else {
        i
    }
}

pub open spec fn scan_digits(s: Seq<char>, i: int) -> int
    decreases s.len() - i,
{
    if 0 <= i < s.len() && is_digit_char(s[i]) {
        scan_digits(s, i + 1)
    } else {
        i
    }
}

pub open spec fn scan_name(s: Seq<char>, i: int) -> int
    decreases s.len() - i,
{
    if 0 <= i < s.len() && is_name_char(s[i]) {
        scan_name(s, i + 1)
    } else {
        i
    }
}

pub open spec fn scan_filter(s: Seq<char>, i: int) -> int
    decreases s.len() - i,
{
    if 0 <= i < s.len() && !is_filter_end_char(s[i]) {
        scan_filter(s, i + 1)
    } else {
        i
    }
}

proof fn lemma_skip_spaces_bounds(s: Seq<char>, i: int)
    requires
        0 <= i <= s.len(),
    ensures
        i <= skip_spaces(s, i) <= s.len(),
    decreases s.len() - i,
{
    if i < s.len() && is_space_char(s[i]) {
        lemma_skip_spaces_bounds(s, i + 1);
    }
}

proof fn lemma_scan_digits_bounds(s: Seq<char>, i: int)
    requires
        0 <= i <= s.len(),
    ensures
        i <= scan_digits(s, i) <= s.len(),
    decreases s.len() - i,
{
    if i < s.len() && is_digit_char(s[i]) {
        lemma_scan_digits_bounds(s, i + 1);
    }
}

proof fn lemma_scan_name_bounds(s: Seq<char>, i: int)
    requires
        0 <= i <= s.len(),
    ensures
        i <= scan_name(s, i) <= s.len(),
    decreases s.len() - i,
{
    if i < s.len() && is_name_char(s[i]) {
        lemma_scan_name_bounds(s, i + 1);
    }
}

proof fn lemma_scan_filter_bounds(s: Seq<char>, i: int)
    requires
        0 <= i <= s.len(),
    ensures
        i <= scan_filter(s, i) <= s.len(),
    decreases s.len() - i,
{
    if i < s.len() && !is_filter_end_char(s[i]) {
        lemma_scan_filter_bounds(s, i + 1);
    }
}

use vstd::string::StrSliceExecFns;

fn skip_spaces_x(s: &str, len: usize, i: usize) -> (r: usize)
    requires
        len == s@.len(),
        i <= len,
    ensures
        r == skip_spaces(s@, i as int),
        i <= r <= len,
{
    let mut r = i;
    while r < len && char_is_space(s.get_char(r))
        invariant
            i <= r <= len,
            len == s@.len(),
            skip_spaces(s@, i as int) == skip_spaces(s@, r as int),
        decreases len - r,
    {
        r = r + 1;
    }
    proof {
        lemma_skip_spaces_bounds(s@, r as int);
    }
    r
}

fn scan_digits_x(s: &str, len: usize, i: usize) -> (r: usize)
    requires
        len == s@.len(),
        i <= len,
    ensures
        r == scan_digits(s@, i as int),
        i <= r <= len,
{
    let mut r = i;
    while r < len && char_is_digit(s.get_char(r))
        invariant
            i <= r <= len,
            len == s@.len(),
            scan_digits(s@, i as int) == scan_digits(s@, r as int),
        decreases len - r,
    {
        r = r + 1;
    }
    proof {
        lemma_scan_digits_bounds(s@, r as int);
    }
    r
}

fn scan_name_x(s: &str, len: usize, i: usize) -> (r: usize)
    requires
        len == s@.len(),
        i <= len,
    ensures
        r == scan_name(s@, i as int),
        i <= r <= len,
{
    let mut r = i;
    while r < len && char_is_name(s.get_char(r))
        invariant
            i <= r <= len,
            len == s@.len(),
            scan_name(s@, i as int) == scan_name(s@, r as int),
        decreases len - r,
    {
        r = r + 1;
    }
    proof {
        lemma_scan_name_bounds(s@, r as int);
    }
    r
}

fn scan_filter_x(s: &str, len: usize, i: usize) -> (r: usize)
    requires
        len == s@.len(),
        i <= len,
    ensures
        r == scan_filter(s@, i as int),
        i <= r <= len,
{
    let mut r = i;
    while r < len && !char_is_filter_end(s.get_char(r))
        invariant
            i <= r <= len,
            len == s@.len(),
            scan_filter(s@, i as int) == scan_filter(s@, r as int),
        decreases len - r,
    {
        r = r + 1;
    }
    proof {
        lemma_scan_filter_bounds(s@, r as int);
    }
    r
}

// ---------------------------------------------------------------------------
// Numbers
// ---------------------------------------------------------------------------

/// The value of the digit run `s[i..j)` read in base ten.
pub open spec fn digits_val(s: Seq<char>, i: int, j: int) -> int
    decreases j - i,
{
    if i < j {
        digits_val(s, i, j - 1) * 10 + digit_val(s[j - 1])
    } else {
        0
    }
}

proof fn lemma_digits_val_nonneg(s: Seq<char>, i: int, j: int)
    requires
        0 <= i,
        j <= s.len(),
        forall|k: int| i <= k < j ==> is_digit_char(s[k]),
    ensures
        digits_val(s, i, j) >= 0,
    decreases j - i,
{
    if i < j {
        lemma_digits_val_nonneg(s, i, j - 1);
    }
}

/// A longer digit run never has a smaller value.
proof fn lemma_digits_val_monotone(s: Seq<char>, i: int, j: int, k: int)
    requires
        0 <= i <= j <= k <= s.len(),
        forall|m: int| i <= m < k ==> is_digit_char(s[m]),
    ensures
        digits_val(s, i, j) <= digits_val(s, i, k),
    decreases k - j,
{
    if j < k {
        lemma_digits_val_monotone(s, i, j, k - 1);
        lemma_digits_val_nonneg(s, i, k - 1);
    }
}

proof fn lemma_scan_digits_all_digits(s: Seq<char>, i: int)
    requires
        0 <= i <= s.len(),
    ensures
        forall|k: int| i <= k < scan_digits(s, i) ==> is_digit_char(s[k]),
    decreases s.len() - i,
{
    if i < s.len() && is_digit_char(s[i]) {
        lemma_scan_digits_all_digits(s, i + 1);
        lemma_scan_digits_bounds(s, i + 1);
    }
}

/// An unsigned decimal integer: a non-empty digit run whose value fits in
/// `u32`. An overflowing run is a parse failure, not a saturation.
pub open spec fn parse_u32(s: Seq<char>, i: int) -> Option<(u32, int)> {
    let j = scan_digits(s, i);
    if j > i && digits_val(s, i, j) <= u32::MAX {
        Some((digits_val(s, i, j) as u32, j))
    } else {
        None
    }
}

fn parse_u32_x(s: &str, len: usize, i: usize) -> (r: Option<(u32, usize)>)
    requires
        len == s@.len(),
        i <= len,
    ensures
        match r {
            Some((v, j)) => {
                &&& parse_u32(s@, i as int) == Some((v, j as int))
                &&& i < j <= len
            },
            None => parse_u32(s@, i as int) is None,
        },
{
    let j = scan_digits_x(s, len, i);
    proof {
        lemma_scan_digits_all_digits(s@, i as int);
    }
    if j == i {
        return None;
    }
    let mut val: u64 = 0;
    let mut k = i;
    while k < j
        invariant
            i <= k <= j <= len,
            len == s@.len(),
            j == scan_digits(s@, i as int),
            forall|m: int| i <= m < j ==> is_digit_char(s@[m]),
            val == digits_val(s@, i as int, k as int),
            val <= u32::MAX,
        decreases j - k,
    {
        let d = (s.get_char(k) as u32) - 48;
        let next: u64 = val * 10 + (d as u64);
        proof {
            assert(next == digits_val(s@, i as int, (k + 1) as int));
        }
        if next > u32::MAX as u64 {
            proof {
                lemma_digits_val_monotone(s@, i as int, (k + 1) as int, j as int);
            }
            return None;
        }
        val = next;
        k = k + 1;
    }
    Some((val as u32, j))
}

/// Milliseconds contributed by the fractional digit run `s[k..fe)`: only the
/// first three fractional digits matter, finer digits are truncated.
pub open spec fn frac_ms(s: Seq<char>, k: int, fe: int) -> int {
    (if k < fe {
        digit_val(s[k]) * 100
    } else {
        0
    }) + (if k + 1 < fe {
        digit_val(s[k + 1]) * 10
    } else {
        0
    }) + (if k + 2 < fe {
        digit_val(s[k + 2])
    } else {
        0
    })
}

pub open spec fn clamp_u32(v: int) -> u32 {
    if v > u32::MAX {
        u32::MAX
    } else {
        v as u32
    }
}

/// A decimal number of seconds, `digits`, `digits.digits` or `.digits`,
/// converted to whole milliseconds (truncated); values beyond `u32::MAX`
/// milliseconds saturate.
pub open spec fn parse_seconds_ms(s: Seq<char>, i: int) -> Option<(u32, int)> {
    let ie = scan_digits(s, i);
    if ie < s.len() && s[ie] == '.' {
        let fe = scan_digits(s, ie + 1);
        if ie > i || fe > ie + 1 {
            Some((clamp_u32(digits_val(s, i, ie) * 1000 + frac_ms(s, ie + 1, fe)), fe))
        } else {
            None
        }
    } else if ie > i {
        Some((clamp_u32(digits_val(s, i, ie) * 1000), ie))
    } else {
        None
    }
}

/// Reads the digit run `s[i..j)`. Returns `(value, false)` when the value
/// fits in `u32`, else `(_, true)`.
fn read_digits_capped(s: &str, len: usize, i: usize, j: usize) -> (r: (u64, bool))
    requires
        len == s@.len(),
        i <= j <= len,
        forall|m: int| i <= m < j ==> is_digit_char(s@[m]),
    ensures
        !r.1 ==> r.0 == digits_val(s@, i as int, j as int) && r.0 <= u32::MAX,
        r.1 ==> digits_val(s@, i as int, j as int) > u32::MAX,
{
    let mut val: u64 = 0;
    let mut k = i;
    while k < j
        invariant
            i <= k <= j <= len,
            len == s@.len(),
            forall|m: int| i <= m < j ==> is_digit_char(s@[m]),
            val == digits_val(s@, i as int, k as int),
            val <= u32::MAX,
        decreases j - k,
    {
        let d = (s.get_char(k) as u32) - 48;
        let next: u64 = val * 10 + (d as u64);
        if next > u32::MAX as u64 {
            proof {
                lemma_digits_val_monotone(s@, i as int, (k + 1) as int, j as int);
            }
            return (0, true);
        }
        val = next;
        k = k + 1;
    }
    (val, false)
}

fn parse_seconds_ms_x(s: &str, len: usize, i: usize) -> (r: Option<(u32, usize)>)
    requires
        len == s@.len(),
        i <= len,
    ensures
        match r {
            Some((v, j)) => {
                &&& parse_seconds_ms(s@, i as int) == Some((v, j as int))
                &&& i < j <= len
            },
            None => parse_seconds_ms(s@, i as int) is None,
        },
{
    let ie = scan_digits_x(s, len, i);
    proof {
        lemma_scan_digits_all_digits(s@, i as int);
    }
    let (end, frac): (usize, u32) = if ie < len && s.get_char(ie) == '.' {
        let fe = scan_digits_x(s, len, ie + 1);
        proof {
            lemma_scan_digits_all_digits(s@, (ie + 1) as int);
        }
        if !(ie > i || fe > ie + 1) {
            return None;
        }
        let d1: u32 = if fe - ie >= 2 {
            ((s.get_char(ie + 1) as u32) - 48) * 100
        } else {
            0
        };
        let d2: u32 = if fe - ie >= 3 {
            ((s.get_char(ie + 2) as u32) - 48) * 10
        } else {
            0
        };
        let d3: u32 = if fe - ie >= 4 {
            (s.get_char(ie + 3) as u32) - 48
        } else {
            0
        };
        (fe, d1 + d2 + d3)
    } else if ie > i {
        (ie, 0)
    } else {
        return None;
    };
    let (int_val, overflowed) = read_digits_capped(s, len, i, ie);
    proof {
        lemma_digits_val_nonneg(s@, i as int, ie as int);
    }
    if overflowed {
        return Some((u32::MAX, end));
    }
    let total: u64 = int_val * 1000 + (frac as u64);
    if total > u32::MAX as u64 {
        Some((u32::MAX, end))
    } else {
        Some((total as u32, end))
    }
}

// ---------------------------------------------------------------------------
// Options of a say-item
// ---------------------------------------------------------------------------

/// One option of a say-item.
enum SayArg {
    Speed(u32),
    Pitch(u32),
    Wait(u32),
    Start(u32),
    Duration(u32),
    Stop,
    AudioFilter(String),
}

/// The mathematical value of a [`SayArg`].
pub enum SayArgV {
    Speed(u32),
    Pitch(u32),
    Wait(u32),
    Start(u32),
    Duration(u32),
    Stop,
    AudioFilter(Seq<char>),
}

impl View for SayArg {
    type V = SayArgV;

    closed spec fn view(&self) -> SayArgV {
        match self {
            SayArg::Speed(v) => SayArgV::Speed(*v),
            SayArg::Pitch(v) => SayArgV::Pitch(*v),
            SayArg::Wait(v) => SayArgV::Wait(*v),
            SayArg::Start(v) => SayArgV::Start(*v),
            SayArg::Duration(v) => SayArgV::Duration(*v),
            SayArg::Stop => SayArgV::Stop,
            SayArg::AudioFilter(f) => SayArgV::AudioFilter(f@),
        }
    }
}

/// A speed is an integer percentage, optionally preceded by `@`.
pub open spec fn try_speed(s: Seq<char>, i0: int) -> Option<(SayArgV, int)> {
    let start = if i0 < s.len() && s[i0] == '@' {
        i0 + 1
    } else {
        i0
    };
    match parse_u32(s, start) {
        Some((v, j)) => Some((SayArgV::Speed(v), j)),
        None => None,
    }
}

pub open spec fn try_pitch(s: Seq<char>, i0: int) -> Option<(SayArgV, int)> {
    if i0 < s.len() && s[i0] == 'p' {
        match parse_u32(s, i0 + 1) {
            Some((v, j)) => Some((SayArgV::Pitch(v), j)),
            None => None,
        }
    } else {
        None
    }
}

pub open spec fn try_wait(s: Seq<char>, i0: int) -> Option<(SayArgV, int)> {
    if i0 < s.len() && s[i0] == 'w' {
        match parse_seconds_ms(s, i0 + 1) {
            Some((v, j)) => Some((SayArgV::Wait(v), j)),
            None => None,
        }
    } else {
        None
    }
}

/// A start offset must be followed by a numeral, which keeps a bare `s`
/// unambiguous: that one is the stop flag.
pub open spec fn try_start(s: Seq<char>, i0: int) -> Option<(SayArgV, int)> {
    if i0 < s.len() && s[i0] == 's' {
        match parse_seconds_ms(s, i0 + 1) {
            Some((v, j)) => Some((SayArgV::Start(v), j)),
            None => None,
        }
    } else {
        None
    }
}

pub open spec fn try_duration(s: Seq<char>, i0: int) -> Option<(SayArgV, int)> {
    if i0 < s.len() && s[i0] == 'd' {
        match parse_seconds_ms(s, i0 + 1) {
            Some((v, j)) => Some((SayArgV::Duration(v), j)),
            None => None,
        }
    } else {
        None
    }
}

/// The stop flag is the word `stop` or a bare `s`.
pub open spec fn try_stop(s: Seq<char>, i0: int) -> Option<(SayArgV, int)> {
    if i0 + 4 <= s.len() && s[i0] == 's' && s[i0 + 1] == 't' && s[i0 + 2] == 'o' && s[i0 + 3]
        == 'p' {
        Some((SayArgV::Stop, i0 + 4))
    } else if i0 < s.len() && s[i0] == 's' {
        Some((SayArgV::Stop, i0 + 1))
    } else {
        None
    }
}

/// `af=` followed by raw text up to the next `;` or space; the text may be
/// empty.
pub open spec fn try_filter(s: Seq<char>, i0: int) -> Option<(SayArgV, int)> {
    if i0 + 3 <= s.len() && s[i0] == 'a' && s[i0 + 1] == 'f' && s[i0 + 2] == '=' {
        let e = scan_filter(s, i0 + 3);
        Some((SayArgV::AudioFilter(s.subrange(i0 + 3, e)), e))
    } else {
        None
    }
}

/// One option, surrounded by insignificant whitespace. The alternatives are
/// tried in this order; the first that matches wins.
pub open spec fn parse_arg(s: Seq<char>, i: int) -> Option<(SayArgV, int)> {
    let i0 = skip_spaces(s, i);
    let r = if try_speed(s, i0) is Some {
        try_speed(s, i0)
    } else if try_pitch(s, i0) is Some {
        try_pitch(s, i0)
    } else if try_wait(s, i0) is Some {
        try_wait(s, i0)
    } else if try_start(s, i0) is Some {
        try_start(s, i0)
    } else if try_duration(s, i0) is Some {
        try_duration(s, i0)
    } else if try_stop(s, i0) is Some {
        try_stop(s, i0)
    } else {
        try_filter(s, i0)
    };
    match r {
        Some((a, j)) => Some((a, skip_spaces(s, j))),
        None => None,
    }
}

fn parse_arg_x(s: &str, len: usize, i: usize) -> (r: Option<(SayArg, usize)>)
    requires
        len == s@.len(),
        i <= len,
    ensures
        match r {
            Some((a, j)) => {
                &&& parse_arg(s@, i as int) == Some((a@, j as int))
                &&& i < j <= len
            },
            None => parse_arg(s@, i as int) is None,
        },
{
    let i0 = skip_spaces_x(s, len, i);
    let arg_end: Option<(SayArg, usize)> = parse_arg_core(s, len, i0);
    match arg_end {
        Some((a, j)) => {
            let j2 = skip_spaces_x(s, len, j);
            Some((a, j2))
        },
        None => None,
    }
}

/// The alternatives of [`parse_arg`] without the surrounding whitespace.
fn parse_arg_core(s: &str, len: usize, i0: usize) -> (r: Option<(SayArg, usize)>)
    requires
        len == s@.len(),
        i0 <= len,
    ensures
        match r {
            Some((a, j)) => {
                &&& ({
                    let expected = if try_speed(s@, i0 as int) is Some {
                        try_speed(s@, i0 as int)
                    } else if try_pitch(s@, i0 as int) is Some {
                        try_pitch(s@, i0 as int)
                    } else if try_wait(s@, i0 as int) is Some {
                        try_wait(s@, i0 as int)
                    } else if try_start(s@, i0 as int) is Some {
                        try_start(s@, i0 as int)
                    } else if try_duration(s@, i0 as int) is Some {
                        try_duration(s@, i0 as int)
                    } else if try_stop(s@, i0 as int) is Some {
                        try_stop(s@, i0 as int)
                    } else {
                        try_filter(s@, i0 as int)
                    };
                    expected == Some((a@, j as int))
                })
                &&& i0 < j <= len
            },
            None => {
                &&& try_speed(s@, i0 as int) is None
                &&& try_pitch(s@, i0 as int) is None
                &&& try_wait(s@, i0 as int) is None
                &&& try_start(s@, i0 as int) is None
                &&& try_duration(s@, i0 as int) is None
                &&& try_stop(s@, i0 as int) is None
                &&& try_filter(s@, i0 as int) is None
            },
        },
{
    // speed: optional '@', then an integer
    let speed_start = if i0 < len && s.get_char(i0) == '@' {
        i0 + 1
    } else {
        i0
    };
    if let Some((v, j)) = parse_u32_x(s, len, speed_start) {
        return Some((SayArg::Speed(v), j));
    }
    if i0 < len {
        let c = s.get_char(i0);
        if c == 'p' {
            if let Some((v, j)) = parse_u32_x(s, len, i0 + 1) {
                return Some((SayArg::Pitch(v), j));
            }
        }
        if c == 'w' {
            if let Some((v, j)) = parse_seconds_ms_x(s, len, i0 + 1) {
                return Some((SayArg::Wait(v), j));
            }
        }
        if c == 's' {
            if let Some((v, j)) = parse_seconds_ms_x(s, len, i0 + 1) {
                return Some((SayArg::Start(v), j));
            }
        }
        if c == 'd' {
            if let Some((v, j)) = parse_seconds_ms_x(s, len, i0 + 1) {
                return Some((SayArg::Duration(v), j));
            }
        }
        if len - i0 >= 4 && c == 's' && s.get_char(i0 + 1) == 't' && s.get_char(i0 + 2) == 'o'
            && s.get_char(i0 + 3) == 'p' {
            return Some((SayArg::Stop, i0 + 4));
        }
        if c == 's' {
            return Some((SayArg::Stop, i0 + 1));
        }
        if len - i0 >= 3 && c == 'a' && s.get_char(i0 + 1) == 'f' && s.get_char(i0 + 2) == '=' {
            let e = scan_filter_x(s, len, i0 + 3);
            let text = s.substring_char(i0 + 3, e);
            return Some((SayArg::AudioFilter(String::from_str(text)), e));
        }
    }
    None
}

/// Later occurrences of an option overwrite earlier ones.
pub open spec fn apply_arg(c: SayCommandV, a: SayArgV) -> SayCommandV {
    match a {
        SayArgV::Speed(v) => SayCommandV { speed: v, ..c },
        SayArgV::Pitch(v) => SayCommandV { pitch: v, ..c },
        SayArgV::Wait(v) => SayCommandV { wait: v, ..c },
        SayArgV::Start(v) => SayCommandV { start: v, ..c },
        SayArgV::Duration(v) => SayCommandV { duration: Some(v), ..c },
        SayArgV::Stop => SayCommandV { stop: true, ..c },
        SayArgV::AudioFilter(f) => SayCommandV { audio_filter: Some(f), ..c },
    }
}

fn apply_arg_x(cmd: &mut SayCommand, a: SayArg)
    ensures
        final(cmd)@ == apply_arg(old(cmd)@, a@),
{
    match a {
        SayArg::Speed(v) => cmd.speed = v,
        SayArg::Pitch(v) => cmd.pitch = v,
        SayArg::Wait(v) => cmd.wait = v,
        SayArg::Start(v) => cmd.start = v,
        SayArg::Duration(v) => cmd.duration = Some(v),
        SayArg::Stop => cmd.stop = true,
        SayArg::AudioFilter(f) => cmd.audio_filter = Some(f),
    }
}

/// Folds options onto `c` until none matches, last occurrence winning.
pub open spec fn parse_args(s: Seq<char>, i: int, c: SayCommandV) -> (SayCommandV, int)
    decreases s.len() - i,
{
    match parse_arg(s, i) {
        Some((a, j)) => {
            if i < j <= s.len() {
                parse_args(s, j, apply_arg(c, a))
            } else {
                (c, i)
            }
        },
        None => (c, i),
    }
}

fn parse_args_x(s: &str, len: usize, i: usize, cmd: &mut SayCommand) -> (r: usize)
    requires
        len == s@.len(),
        i <= len,
    ensures
        parse_args(s@, i as int, old(cmd)@) == (final(cmd)@, r as int),
        i <= r <= len,
{
    let mut cur = i;
    loop
        invariant
            i <= cur <= len,
            len == s@.len(),
            parse_args(s@, i as int, old(cmd)@) == parse_args(s@, cur as int, cmd@),
        ensures
            parse_args(s@, cur as int, cmd@) == (cmd@, cur as int),
            i <= cur <= len,
        decreases len - cur,
    {
        match parse_arg_x(s, len, cur) {
            Some((a, j)) => {
                apply_arg_x(cmd, a);
                cur = j;
            },
            None => {
                break;
            },
        }
    }
    cur
}

// ---------------------------------------------------------------------------
// Say-items and sequences
// ---------------------------------------------------------------------------

/// The delimiter that closes a say-item: `;` is sequential, `|` back-to-back,
/// and a missing delimiter at the end of the input defaults to sequential.
pub open spec fn parse_action(s: Seq<char>, i: int) -> Option<(Action, int)> {
    let i0 = skip_spaces(s, i);
    if i0 >= s.len() {
        Some((Action::Synthesize, i0))
    } else if s[i0] == ';' {
        Some((Action::Synthesize, skip_spaces(s, i0 + 1)))
    } else if s[i0] == '|' {
        Some((Action::Concat, skip_spaces(s, i0 + 1)))
    } else {
        None
    }
}

fn parse_action_x(s: &str, len: usize, i: usize) -> (r: Option<(Action, usize)>)
    requires
        len == s@.len(),
        i <= len,
    ensures
        match r {
            Some((a, j)) => {
                &&& parse_action(s@, i as int) == Some((a, j as int))
                &&& i <= j <= len
            },
            None => parse_action(s@, i as int) is None,
        },
{
    let i0 = skip_spaces_x(s, len, i);
    if i0 >= len {
        Some((Action::Synthesize, i0))
    } else {
        let c = s.get_char(i0);
        if c == ';' {
            Some((Action::Synthesize, skip_spaces_x(s, len, i0 + 1)))
        } else if c == '|' {
            Some((Action::Concat, skip_spaces_x(s, len, i0 + 1)))
        } else {
            None
        }
    }
}

pub open spec fn with_action(c: SayCommandV, a: Action) -> SayCommandV {
    SayCommandV { action: a, ..c }
}

/// One say-item: a name, any number of options (last occurrence wins), and
/// its delimiter.
pub open spec fn parse_command(s: Seq<char>, i: int) -> Option<(SayCommandV, int)> {
    let i0 = skip_spaces(s, i);
    let n_end = scan_name(s, i0);
    if n_end > i0 {
        let i1 = skip_spaces(s, n_end);
        let folded = parse_args(s, i1, default_command(s.subrange(i0, n_end)));
        match parse_action(s, folded.1) {
            Some((act, i3)) => Some((with_action(folded.0, act), i3)),
            None => None,
        }
    } else {
        None
    }
}

fn parse_command_x(s: &str, len: usize, i: usize) -> (r: Option<(SayCommand, usize)>)
    requires
        len == s@.len(),
        i <= len,
    ensures
        match r {
            Some((c, j)) => {
                &&& parse_command(s@, i as int) == Some((c@, j as int))
                &&& i < j <= len
            },
            None => parse_command(s@, i as int) is None,
        },
{
    let i0 = skip_spaces_x(s, len, i);
    let n_end = scan_name_x(s, len, i0);
    if n_end == i0 {
        return None;
    }
    let name_str = s.substring_char(i0, n_end);
    let mut cmd = SayCommand::default();
    cmd.name = String::from_str(name_str);
    let i1 = skip_spaces_x(s, len, n_end);
    let i2 = parse_args_x(s, len, i1, &mut cmd);
    match parse_action_x(s, len, i2) {
        Some((act, i3)) => {
            cmd.action = act;
            Some((cmd, i3))
        },
        None => None,
    }
}

/// As many say-items as match, left to right; the remainder of the input is
/// ignored.
pub open spec fn parse_sequence(s: Seq<char>, i: int) -> Seq<SayCommandV>
    decreases s.len() - i,
{
    match parse_command(s, i) {
        Some((c, j)) => {
            if i < j <= s.len() {
                seq![c] + parse_sequence(s, j)
            } else {
                seq![c]
            }
        },
        None => Seq::empty(),
    }
}

/// What parsing a whole input means: the longest run of say-items from the
/// start of the text, a failure if there is none. Trailing unparsable text
/// is not an error, so that ordinary chat text simply fails to be a command.
pub open spec fn spec_parse(s: Seq<char>) -> Option<Seq<SayCommandV>> {
    let cs = parse_sequence(s, 0);
    if cs.len() > 0 {
        Some(cs)
    } else {
        None
    }
}

/// The input was not a say-command sequence: a normal outcome for ordinary
/// text, never an application error.
#[derive(Debug, PartialEq, Eq, Clone)]
pub struct ParseError;

/// An ordered say-command sequence, as one chat message produces it.
#[derive(Debug, PartialEq, Eq, Clone)]
pub struct SayCommands(Vec<SayCommand>);

impl View for SayCommands {
    type V = Seq<SayCommandV>;

    closed spec fn view(&self) -> Seq<SayCommandV> {
        self.0@.map_values(|c: SayCommand| c@)
    }
}

impl SayCommands {
    /// Parses a message. `Ok` exactly when at least one say-item matches at
    /// the start of the text, and then the result is exactly the parsed
    /// sequence.
    pub fn from_str(s: &str) -> (r: Result<SayCommands, ParseError>)
        ensures
            match r {
                Ok(cmds) => spec_parse(s@) == Some(cmds@),
                Err(_) => spec_parse(s@) is None,
            },
    {
        let len = s.unicode_len();
        let mut acc: Vec<SayCommand> = Vec::new();
        let mut cur: usize = 0;
        loop
            invariant
                cur <= len,
                len == s@.len(),
                parse_sequence(s@, 0) == acc@.map_values(|c: SayCommand| c@) + parse_sequence(
                    s@,
                    cur as int,
                ),
            ensures
                cur <= len,
                parse_sequence(s@, 0) == acc@.map_values(|c: SayCommand| c@),
            decreases len - cur,
        {
            let ghost prev = acc@.map_values(|c: SayCommand| c@);
            match parse_command_x(s, len, cur) {
                Some((c, j)) => {
                    acc.push(c);
                    proof {
                        assert(acc@.map_values(|c: SayCommand| c@) =~= prev + seq![c@]);
                        assert(prev + (seq![c@] + parse_sequence(s@, j as int)) =~= (prev + seq![
                            c@,
                        ]) + parse_sequence(s@, j as int));
                    }
                    cur = j;
                },
                None => {
                    proof {
                        assert(parse_sequence(s@, cur as int) =~= Seq::<SayCommandV>::empty());
                        assert(prev + Seq::<SayCommandV>::empty() =~= prev);
                    }
                    break;
                },
            }
        }
        if acc.len() > 0 {
            Ok(SayCommands(acc))
        } else {
            Err(ParseError)
        }
    }

    pub fn len(&self) -> (r: usize)
        ensures
            r == self@.len(),
    {
        self.0.len()
    }

    pub fn is_empty(&self) -> (r: bool)
        ensures
            r == (self@.len() == 0),
    {
        self.0.len() == 0
    }

    pub fn get(&self, i: usize) -> (r: &SayCommand)
        requires
            i < self@.len(),
        ensures
            r@ == self@[i as int],
    {
        &self.0[i]
    }

    /// Gives the sequence up to its consumers in source order.
    pub fn into_vec(self) -> (r: Vec<SayCommand>)
        ensures
            r@.map_values(|c: SayCommand| c@) == self@,
    {
        self.0
    }

    /// Caps the sequence at a configurable maximum item count, keeping
    /// the leftmost items.
    pub fn truncate(&mut self, max: usize)
        ensures
            final(self)@ == (if old(self)@.len() <= max {
                old(self)@
            } else {
                old(self)@.take(max as int)
            }),
    {
        if self.0.len() > max {
            self.0.truncate(max);
            proof {
                assert(self@ =~= old(self)@.take(max as int));
            }
        }
    }

    /// Clamps every pitch into `[1, 200]`; no other field changes.
    pub fn sanitize(&mut self)
        ensures
            final(self)@ == old(self)@.map_values(|c: SayCommandV| sanitize_command(c)),
    {
        let n = self.0.len();
        let mut i: usize = 0;
        while i < n
            invariant
                i <= n,
                n == self.0.len(),
                forall|k: int|
                    0 <= k < i ==> #[trigger] self.0@[k]@ == sanitize_command(old(self).0@[k]@),
                forall|k: int| i <= k < n ==> #[trigger] self.0@[k] == old(self).0@[k],
            decreases n - i,
        {
            let p = self.0[i].pitch;
            let clamped = if p < 1 {
                1
            } else if p > 200 {
                200
            } else {
                p
            };
            self.0[i].pitch = clamped;
            i = i + 1;
        }
        proof {
            assert(final(self)@ =~= old(self)@.map_values(|c: SayCommandV| sanitize_command(c)));
        }
    }
}

/// The sanitize pass on one command: pitch clamped into `[1, 200]`.
pub open spec fn sanitize_command(c: SayCommandV) -> SayCommandV {
    SayCommandV {
        pitch: if c.pitch < 1 {
            1
        } else if c.pitch > 200 {
            200
        } else {
            c.pitch
        },
        ..c
    }
}

// ---------------------------------------------------------------------------
// Rendering a sequence back to source text
// ---------------------------------------------------------------------------

pub open spec fn digit_char(d: int) -> char {
    ((48 + d) as u8) as char
}

/// The decimal digits of `n`, most significant first.
pub open spec fn dec_str(n: int) -> Seq<char>
    decreases n,
{
    if n < 10 {
        seq![digit_char(if n < 0 { 0 } else { n % 10 })]
    } else {
        dec_str(n / 10) + seq![digit_char(n % 10)]
    }
}

/// Milliseconds rendered as seconds with one fractional digit, rounded to
/// the nearest tenth with ties rounding up.
pub open spec fn secs_str(ms: u32) -> Seq<char> {
    let tenths = (ms + 50) / 100;
    dec_str(tenths / 10) + seq!['.'] + seq![digit_char(tenths % 10)]
}

pub open spec fn speed_part(c: SayCommandV) -> Seq<char> {
    if c.speed != 100 {
        seq![' '] + dec_str(c.speed as int)
    } else {
        Seq::empty()
    }
}

pub open spec fn pitch_part(c: SayCommandV) -> Seq<char> {
    if c.pitch != 100 {
        seq![' ', 'p'] + dec_str(c.pitch as int)
    } else {
        Seq::empty()
    }
}

pub open spec fn wait_part(c: SayCommandV) -> Seq<char> {
    if c.wait != 0 {
        seq![' ', 'w'] + secs_str(c.wait)
    } else {
        Seq::empty()
    }
}

pub open spec fn start_part(c: SayCommandV) -> Seq<char> {
    if c.start != 0 {
        seq![' ', 's'] + secs_str(c.start)
    } else {
        Seq::empty()
    }
}

pub open spec fn duration_part(c: SayCommandV) -> Seq<char> {
    match c.duration {
        Some(d) => seq![' ', 'd'] + secs_str(d),
        None => Seq::empty(),
    }
}

pub open spec fn stop_part(c: SayCommandV) -> Seq<char> {
    if c.stop {
        seq![' ', 's']
    } else {
        Seq::empty()
    }
}

pub open spec fn filter_part(c: SayCommandV) -> Seq<char> {
    match c.audio_filter {
        Some(f) => seq![' ', 'a', 'f', '='] + f,
        None => Seq::empty(),
    }
}

/// A say-item's body: options appear only where they differ from their
/// defaults, in the fixed order name, speed, pitch, wait, start, duration,
/// stop, audio filter.
pub open spec fn render_body(c: SayCommandV) -> Seq<char> {
    c.name + speed_part(c) + pitch_part(c) + wait_part(c) + start_part(c) + duration_part(c)
        + stop_part(c) + filter_part(c)
}

pub open spec fn delim_str(a: Action) -> Seq<char> {
    match a {
        Action::Synthesize => seq![';', ' '],
        Action::Concat => seq!['|', ' '],
    }
}

/// A say-item rendered back to source text: its body followed by its own
/// action delimiter, `; ` or `| `.
pub open spec fn render_command(c: SayCommandV) -> Seq<char> {
    render_body(c) + delim_str(c.action)
}

/// A whole sequence: every item rendered with its delimiter, except the
/// last, whose two delimiter characters are cut.
pub open spec fn render_sequence(cs: Seq<SayCommandV>) -> Seq<char>
    decreases cs.len(),
{
    if cs.len() == 0 {
        Seq::empty()
    } else if cs.len() == 1 {
        render_body(cs[0])
    } else {
        render_command(cs[0]) + render_sequence(cs.drop_first())
    }
}

/// The decimal digits of `n` as ASCII bytes, most significant first.
pub open spec fn dec_bytes(n: int) -> Seq<u8>
    decreases n,
{
    if n < 10 {
        seq![(48 + (if n < 0 { 0 } else { n % 10 })) as u8]
    } else {
        dec_bytes(n / 10) + seq![(48 + (n % 10)) as u8]
    }
}

proof fn lemma_dec_bytes_ascii(n: int)
    ensures
        forall|i: int| 0 <= i < dec_bytes(n).len() ==> dec_bytes(n)[i] < 128,
        dec_bytes(n).map_values(|b: u8| b as char) =~= dec_str(n),
    decreases n,
{
    if n >= 10 {
        lemma_dec_bytes_ascii(n / 10);
        assert(dec_bytes(n).map_values(|b: u8| b as char) =~= dec_bytes(n / 10).map_values(
            |b: u8| b as char,
        ) + seq![digit_char(n % 10)]);
    }
}

/// Relies on `String::from_utf8_lossy`: bytes below 128 are valid UTF-8 and
/// decode to the characters with the same code points.
#[verifier::external_body]
pub(crate) fn ascii_to_string(bytes: &Vec<u8>) -> (r: String)
    requires
        forall|i: int| 0 <= i < bytes@.len() ==> bytes@[i] < 128,
    ensures
        r@ == bytes@.map_values(|b: u8| b as char),
{
    String::from_utf8_lossy(bytes).into_owned()
}

/// Renders `n` in decimal.
pub(crate) fn format_u64(n: u64) -> (r: String)
    ensures
        r@ == dec_str(n as int),
{
    let mut low_digits: Vec<u8> = Vec::new();
    let mut cur = n;
    while cur >= 10
        invariant
            dec_bytes(n as int) =~= dec_bytes(cur as int) + low_digits@.reverse(),
            forall|i: int| 0 <= i < low_digits@.len() ==> low_digits@[i] < 128,
        decreases cur,
    {
        let ghost prev = low_digits@;
        low_digits.push((48 + (cur % 10)) as u8);
        proof {
            assert(low_digits@.reverse() =~= seq![(48 + (cur as int % 10)) as u8]
                + prev.reverse());
            assert(dec_bytes(cur as int) =~= dec_bytes(cur as int / 10) + seq![(48 + (cur as int
                % 10)) as u8]);
            assert(dec_bytes(cur as int) + prev.reverse() =~= dec_bytes(cur as int / 10) + (seq![(
            48 + (cur as int % 10)) as u8] + prev.reverse()));
        }
        cur = cur / 10;
    }
    let ghost prev = low_digits@;
    low_digits.push(48 + (cur as u8));
    proof {
        assert(low_digits@.reverse() =~= seq![(48 + cur as int) as u8] + prev.reverse());
        assert(dec_bytes(cur as int) =~= seq![(48 + cur as int) as u8]);
        assert(dec_bytes(n as int) =~= seq![(48 + cur as int) as u8] + prev.reverse());
    }
    let mut out: Vec<u8> = Vec::new();
    let mut i = low_digits.len();
    while i > 0
        invariant
            i <= low_digits@.len(),
            forall|k: int| 0 <= k < low_digits@.len() ==> low_digits@[k] < 128,
            out@ =~= low_digits@.subrange(i as int, low_digits@.len() as int).reverse(),
        decreases i,
    {
        i = i - 1;
        out.push(low_digits[i]);
        proof {
            assert(out@ =~= low_digits@.subrange(i as int, low_digits@.len() as int).reverse());
        }
    }
    proof {
        assert(out@ =~= low_digits@.reverse());
        lemma_dec_bytes_ascii(n as int);
        assert(out@.map_values(|b: u8| b as char) =~= dec_str(n as int));
    }
    let s = ascii_to_string(&out);
    proof {
        assert(s@ =~= dec_str(n as int));
    }
    s
}

/// Renders milliseconds as decimal seconds with one fractional digit.
fn format_secs(ms: u32) -> (r: String)
    ensures
        r@ == secs_str(ms),
{
    let tenths = ms / 100 + (if ms % 100 >= 50 {
        1
    } else {
        0
    });
    proof {
        assert(tenths == (ms + 50) / 100);
    }
    let mut s = format_u64((tenths / 10) as u64);
    s.append(".");
    let frac = format_u64((tenths % 10) as u64);
    s.append(frac.as_str());
    proof {
        reveal_strlit(".");
        assert(s@ =~= secs_str(ms));
    }
    s
}

fn append_speed(s: &mut String, c: &SayCommand)
    ensures
        final(s)@ == old(s)@ + speed_part(c@),
{
    if c.speed != 100 {
        s.append(" ");
        let t = format_u64(c.speed as u64);
        s.append(t.as_str());
    }
    proof {
        reveal_strlit(" ");
        assert(final(s)@ =~= old(s)@ + speed_part(c@));
    }
}

fn append_pitch(s: &mut String, c: &SayCommand)
    ensures
        final(s)@ == old(s)@ + pitch_part(c@),
{
    if c.pitch != 100 {
        s.append(" p");
        let t = format_u64(c.pitch as u64);
        s.append(t.as_str());
    }
    proof {
        reveal_strlit(" p");
        assert(final(s)@ =~= old(s)@ + pitch_part(c@));
    }
}

fn append_wait(s: &mut String, c: &SayCommand)
    ensures
        final(s)@ == old(s)@ + wait_part(c@),
{
    if c.wait != 0 {
        s.append(" w");
        let t = format_secs(c.wait);
        s.append(t.as_str());
    }
    proof {
        reveal_strlit(" w");
        assert(final(s)@ =~= old(s)@ + wait_part(c@));
    }
}

fn append_start(s: &mut String, c: &SayCommand)
    ensures
        final(s)@ == old(s)@ + start_part(c@),
{
    if c.start != 0 {
        s.append(" s");
        let t = format_secs(c.start);
        s.append(t.as_str());
    }
    proof {
        reveal_strlit(" s");
        assert(final(s)@ =~= old(s)@ + start_part(c@));
    }
}

fn append_duration(s: &mut String, c: &SayCommand)
    ensures
        final(s)@ == old(s)@ + duration_part(c@),
{
    if let Some(d) = c.duration {
        s.append(" d");
        let t = format_secs(d);
        s.append(t.as_str());
    }
    proof {
        reveal_strlit(" d");
        assert(final(s)@ =~= old(s)@ + duration_part(c@));
    }
}

fn append_stop(s: &mut String, c: &SayCommand)
    ensures
        final(s)@ == old(s)@ + stop_part(c@),
{
    if c.stop {
        s.append(" s");
    }
    proof {
        reveal_strlit(" s");
        assert(final(s)@ =~= old(s)@ + stop_part(c@));
    }
}

fn append_filter(s: &mut String, c: &SayCommand)
    ensures
        final(s)@ == old(s)@ + filter_part(c@),
{
    if let Some(ref f) = c.audio_filter {
        s.append(" af=");
        s.append(f.as_str());
    }
    proof {
        reveal_strlit(" af=");
        assert(final(s)@ =~= old(s)@ + filter_part(c@));
    }
}

/// Renders a say-item's body, without its delimiter.
fn render_body_x(c: &SayCommand) -> (r: String)
    ensures
        r@ == render_body(c@),
{
    let mut s = c.name.clone();
    append_speed(&mut s, c);
    append_pitch(&mut s, c);
    append_wait(&mut s, c);
    append_start(&mut s, c);
    append_duration(&mut s, c);
    append_stop(&mut s, c);
    append_filter(&mut s, c);
    s
}

impl SayCommand {
    /// Renders the item back to source text, ending with its own action
    /// delimiter.
    pub fn to_string(&self) -> (r: String)
        ensures
            r@ == render_command(self@),
    {
        let mut s = render_body_x(self);
        match self.action {
            Action::Synthesize => s.append("; "),
            Action::Concat => s.append("| "),
        }
        proof {
            reveal_strlit("; ");
            reveal_strlit("| ");
            assert(s@ =~= render_command(self@));
        }
        s
    }
}

impl SayCommands {
    /// Renders the whole sequence: every item with its delimiter, and the
    /// final delimiter cut off.
    pub fn to_string(&self) -> (r: String)
        requires
            self@.len() > 0,
        ensures
            r@ == render_sequence(self@),
    {
        let n = self.0.len();
        let mut s = String::new();
        let mut i: usize = 0;
        proof {
            assert(self@.subrange(0, n as int) =~= self@);
            assert(s@ + render_sequence(self@) =~= render_sequence(self@));
        }
        while i < n - 1
            invariant
                0 < n == self.0@.len(),
                i <= n - 1,
                render_sequence(self@) =~= s@ + render_sequence(
                    self@.subrange(i as int, n as int),
                ),
            decreases n - i,
        {
            let piece = self.0[i].to_string();
            s.append(piece.as_str());
            proof {
                let rest = self@.subrange(i as int, n as int);
                assert(rest.len() >= 2);
                assert(rest[0] == self@[i as int]);
                assert(rest.drop_first() =~= self@.subrange(i as int + 1, n as int));
            }
            i = i + 1;
        }
        let piece = render_body_x(&self.0[n - 1]);
        s.append(piece.as_str());
        proof {
            let rest = self@.subrange((n - 1) as int, n as int);
            assert(rest.len() == 1);
            assert(rest[0] == self@[n - 1]);
            assert(s@ =~= render_sequence(self@));
        }
        s
    }
}

// ---------------------------------------------------------------------------
// Laws of the grammar
// ---------------------------------------------------------------------------

/// Within one say-item a repeated option overwrites the earlier occurrence:
/// folding two occurrences of the same option leaves exactly the later one.
pub proof fn lemma_last_option_wins(c: SayCommandV, v1: u32, v2: u32, f1: Seq<char>, f2: Seq<char>)
    ensures
        apply_arg(apply_arg(c, SayArgV::Speed(v1)), SayArgV::Speed(v2)) == apply_arg(
            c,
            SayArgV::Speed(v2),
        ),
        apply_arg(apply_arg(c, SayArgV::Pitch(v1)), SayArgV::Pitch(v2)) == apply_arg(
            c,
            SayArgV::Pitch(v2),
        ),
        apply_arg(apply_arg(c, SayArgV::Wait(v1)), SayArgV::Wait(v2)) == apply_arg(
            c,
            SayArgV::Wait(v2),
        ),
        apply_arg(apply_arg(c, SayArgV::Start(v1)), SayArgV::Start(v2)) == apply_arg(
            c,
            SayArgV::Start(v2),
        ),
        apply_arg(apply_arg(c, SayArgV::Duration(v1)), SayArgV::Duration(v2)) == apply_arg(
            c,
            SayArgV::Duration(v2),
        ),
        apply_arg(apply_arg(c, SayArgV::AudioFilter(f1)), SayArgV::AudioFilter(f2)) == apply_arg(
            c,
            SayArgV::AudioFilter(f2),
        ),
{
}

/// The options of a say-item, in source order, as the option parser reads
/// them one after another.
pub open spec fn parsed_args(s: Seq<char>, i: int) -> Seq<SayArgV>
    decreases s.len() - i,
{
    match parse_arg(s, i) {
        Some((a, j)) => {
            if i < j <= s.len() {
                seq![a] + parsed_args(s, j)
            } else {
                Seq::empty()
            }
        },
        None => Seq::empty(),
    }
}

/// A list of options folded onto a command, first to last.
pub open spec fn fold_args(c: SayCommandV, args: Seq<SayArgV>) -> SayCommandV
    decreases args.len(),
{
    if args.len() == 0 {
        c
    } else {
        fold_args(apply_arg(c, args[0]), args.drop_first())
    }
}

/// Parsing a say-item's options is exactly the fold of `parsed_args`.
proof fn lemma_parse_args_is_fold(s: Seq<char>, i: int, c: SayCommandV)
    ensures
        parse_args(s, i, c).0 == fold_args(c, parsed_args(s, i)),
    decreases s.len() - i,
{
    match parse_arg(s, i) {
        Some((a, j)) => {
            if i < j <= s.len() {
                lemma_parse_args_is_fold(s, j, apply_arg(c, a));
                assert((seq![a] + parsed_args(s, j))[0] == a);
                assert((seq![a] + parsed_args(s, j)).drop_first() =~= parsed_args(s, j));
            }
        },
        None => {},
    }
}

proof fn lemma_fold_args_push(c: SayCommandV, args: Seq<SayArgV>, x: SayArgV)
    ensures
        fold_args(c, args.push(x)) == apply_arg(fold_args(c, args), x),
    decreases args.len(),
{
    let p = args.push(x);
    if args.len() == 0 {
        assert(p[0] == x);
        assert(p.drop_first() =~= Seq::<SayArgV>::empty());
        assert(fold_args(c, p) == fold_args(apply_arg(c, x), p.drop_first()));
        assert(fold_args(apply_arg(c, x), Seq::<SayArgV>::empty()) == apply_arg(c, x));
        assert(fold_args(c, args) == c);
    } else {
        assert(p[0] == args[0]);
        assert(p.drop_first() =~= args.drop_first().push(x));
        lemma_fold_args_push(apply_arg(c, args[0]), args.drop_first(), x);
        assert(fold_args(c, p) == fold_args(apply_arg(c, args[0]), p.drop_first()));
        assert(fold_args(apply_arg(c, args[0]), args.drop_first().push(x)) == apply_arg(
            fold_args(apply_arg(c, args[0]), args.drop_first()),
            x,
        ));
        assert(fold_args(c, args) == fold_args(apply_arg(c, args[0]), args.drop_first()));
    }
}

/// The value of the last speed option in the list, if any.
pub open spec fn last_speed(args: Seq<SayArgV>) -> Option<u32>
    decreases args.len(),
{
    if args.len() == 0 {
        None
    } else {
        match args.last() {
            SayArgV::Speed(v) => Some(v),
            _ => last_speed(args.drop_last()),
        }
    }
}

/// The value of the last pitch option in the list, if any.
pub open spec fn last_pitch(args: Seq<SayArgV>) -> Option<u32>
    decreases args.len(),
{
    if args.len() == 0 {
        None
    } else {
        match args.last() {
            SayArgV::Pitch(v) => Some(v),
            _ => last_pitch(args.drop_last()),
        }
    }
}

/// The value of the last wait option in the list, if any.
pub open spec fn last_wait(args: Seq<SayArgV>) -> Option<u32>
    decreases args.len(),
{
    if args.len() == 0 {
        None
    } else {
        match args.last() {
            SayArgV::Wait(v) => Some(v),
            _ => last_wait(args.drop_last()),
        }
    }
}

/// The value of the last start option in the list, if any.
pub open spec fn last_start(args: Seq<SayArgV>) -> Option<u32>
    decreases args.len(),
{
    if args.len() == 0 {
        None
    } else {
        match args.last() {
            SayArgV::Start(v) => Some(v),
            _ => last_start(args.drop_last()),
        }
    }
}

/// The value of the last duration option in the list, if any.
pub open spec fn last_duration(args: Seq<SayArgV>) -> Option<u32>
    decreases args.len(),
{
    if args.len() == 0 {
        None
    } else {
        match args.last() {
            SayArgV::Duration(v) => Some(v),
            _ => last_duration(args.drop_last()),
        }
    }
}

/// The text of the last audio-filter option in the list, if any.
pub open spec fn last_filter(args: Seq<SayArgV>) -> Option<Seq<char>>
    decreases args.len(),
{
    if args.len() == 0 {
        None
    } else {
        match args.last() {
            SayArgV::AudioFilter(f) => Some(f),
            _ => last_filter(args.drop_last()),
        }
    }
}

pub open spec fn has_stop(args: Seq<SayArgV>) -> bool
    decreases args.len(),
{
    if args.len() == 0 {
        false
    } else {
        args.last() is Stop || has_stop(args.drop_last())
    }
}

/// Last-option-wins over a whole option list: each option field of the
/// folded command is the value of that option's last occurrence, or the
/// starting value when the option never occurs; the stop flag is set
/// exactly when the flag occurs; name and action are never touched.
pub proof fn lemma_fold_last_option_wins(c: SayCommandV, args: Seq<SayArgV>)
    ensures
        fold_args(c, args).speed == (match last_speed(args) {
            Some(v) => v,
            None => c.speed,
        }),
        fold_args(c, args).pitch == (match last_pitch(args) {
            Some(v) => v,
            None => c.pitch,
        }),
        fold_args(c, args).wait == (match last_wait(args) {
            Some(v) => v,
            None => c.wait,
        }),
        fold_args(c, args).start == (match last_start(args) {
            Some(v) => v,
            None => c.start,
        }),
        fold_args(c, args).duration == (match last_duration(args) {
            Some(v) => Some(v),
            None => c.duration,
        }),
        fold_args(c, args).audio_filter == (match last_filter(args) {
            Some(f) => Some(f),
            None => c.audio_filter,
        }),
        fold_args(c, args).stop == (c.stop || has_stop(args)),
        fold_args(c, args).name == c.name,
        fold_args(c, args).action == c.action,
    decreases args.len(),
{
    if args.len() > 0 {
        let front = args.drop_last();
        lemma_fold_last_option_wins(c, front);
        assert(args =~= front.push(args.last()));
        lemma_fold_args_push(c, front, args.last());
    }
}

/// Last-option-wins at the parse level: within one say-item, each option
/// field of the parsed result is the value of that option's last
/// occurrence in source order — earlier occurrences have no effect.
pub proof fn lemma_parse_last_option_wins(s: Seq<char>, i: int, c: SayCommandV)
    ensures
        ({
            let parsed = parse_args(s, i, c).0;
            let args = parsed_args(s, i);
            &&& parsed.speed == (match last_speed(args) {
                Some(v) => v,
                None => c.speed,
            })
            &&& parsed.pitch == (match last_pitch(args) {
                Some(v) => v,
                None => c.pitch,
            })
            &&& parsed.wait == (match last_wait(args) {
                Some(v) => v,
                None => c.wait,
            })
            &&& parsed.start == (match last_start(args) {
                Some(v) => v,
                None => c.start,
            })
            &&& parsed.duration == (match last_duration(args) {
                Some(v) => Some(v),
                None => c.duration,
            })
            &&& parsed.audio_filter == (match last_filter(args) {
                Some(f) => Some(f),
                None => c.audio_filter,
            })
            &&& parsed.stop == (c.stop || has_stop(args))
            &&& parsed.name == c.name
        }),
{
    lemma_parse_args_is_fold(s, i, c);
    lemma_fold_last_option_wins(c, parsed_args(s, i));
}

/// A say-item with no trailing delimiter defaults to the sequential action:
/// at the end of the input, possibly after whitespace, the delimiter parser
/// yields `Synthesize`.
pub proof fn lemma_default_action(s: Seq<char>, i: int)
    requires
        skip_spaces(s, i) >= s.len(),
    ensures
        parse_action(s, i) == Some((Action::Synthesize, skip_spaces(s, i))),
{
}

impl From<Vec<SayCommand>> for SayCommands {
    fn from(v: Vec<SayCommand>) -> (r: SayCommands)
        ensures
            r@ == v@.map_values(|c: SayCommand| c@),
    {
        SayCommands(v)
    }
}

impl vstd::std_specs::convert::FromSpecImpl<Vec<SayCommand>> for SayCommands {
    open spec fn obeys_from_spec() -> bool {
        true
    }

    closed spec fn from_spec(v: Vec<SayCommand>) -> SayCommands {
        SayCommands(v)
    }
}

} // verus!
