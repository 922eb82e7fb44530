//! The sound catalog: files keyed by lowercased name, metadata computed at
//! most once per file, fuzzy search over the names, and the map operations
//! that a filesystem watch drives.

use vstd::prelude::*;

verus! {

/// What the lowercasing of a piece of text returns. The exact mapping is
/// the Unicode one of `str::to_lowercase`; the contracts only need that it
/// is a function of the characters alone.
pub uninterp spec fn lower_of(s: Seq<char>) -> Seq<char>;

/// Relies on `str::to_lowercase`: the result depends on the characters of
/// `s` alone.
#[verifier::external_body]
fn lowercase(s: &str) -> (r: String)
    ensures
        r@ == lower_of(s@),
{
    s.to_lowercase()
}

/// Audio properties of one file, in plain values. Times are milliseconds.
#[derive(Debug, PartialEq, Eq)]
pub struct Metadata {
    pub sample_rate_hz: u32,
    pub channel_count: u8,
    pub duration_ms: u32,
    pub updated_at_ms: u64,
    pub references: Vec<String>,
}

/// The mathematical value of a [`Metadata`].
pub struct MetadataV {
    pub sample_rate_hz: u32,
    pub channel_count: u8,
    pub duration_ms: u32,
    pub updated_at_ms: u64,
    pub references: Seq<Seq<char>>,
}

impl View for Metadata {
    type V = MetadataV;

    open spec fn view(&self) -> MetadataV {
        MetadataV {
            sample_rate_hz: self.sample_rate_hz,
            channel_count: self.channel_count,
            duration_ms: self.duration_ms,
            updated_at_ms: self.updated_at_ms,
            references: self.references@.map_values(|s: String| s@),
        }
    }
}

impl Clone for Metadata {
    fn clone(&self) -> (r: Self)
        ensures
            r@ == self@,
    {
        let r = Metadata {
            sample_rate_hz: self.sample_rate_hz,
            channel_count: self.channel_count,
            duration_ms: self.duration_ms,
            updated_at_ms: self.updated_at_ms,
            references: self.references.clone(),
        };
        proof {
            assert(r@.references =~= self@.references);
        }
        r
    }
}

// ---------------------------------------------------------------------------
// Path helpers
// ---------------------------------------------------------------------------

/// The largest index of `c` in `p`, or `-1`.
pub open spec fn last_index(p: Seq<char>, c: char) -> int
    decreases p.len(),
{
    if p.len() == 0 {
        -1
    } else if p[p.len() - 1] == c {
        p.len() - 1
    } else {
        last_index(p.drop_last(), c)
    }
}

/// The logical name of a file: what stands between the last `/` and the
/// last `.` of the part after it; a leading dot does not count as an
/// extension separator.
pub open spec fn file_stem(p: Seq<char>) -> Seq<char> {
    let base = p.subrange(last_index(p, '/') + 1, p.len() as int);
    let d = last_index(base, '.');
    if d <= 0 {
        base
    } else {
        base.subrange(0, d)
    }
}

/// Whether the path ends in `.mp3`; only such files enter the catalog.
pub open spec fn has_mp3_extension(p: Seq<char>) -> bool {
    p.len() >= 4 && p.subrange(p.len() - 4, p.len() as int) == ".mp3"@
}

fn last_index_x(s: &str, len: usize, c: char) -> (r: Option<usize>)
    requires
        len == s@.len(),
    ensures
        match r {
            Some(i) => i < len && last_index(s@, c) == i as int,
            None => last_index(s@, c) == -1,
        },
{
    let mut i = len;
    proof {
        assert(s@.subrange(0, len as int) =~= s@);
    }
    while i > 0
        invariant
            i <= len,
            len == s@.len(),
            last_index(s@, c) == last_index(s@.subrange(0, i as int), c),
        decreases i,
    {
        i = i - 1;
        if s.get_char(i) == c {
            proof {
                let pre = s@.subrange(0, (i + 1) as int);
                assert(pre[pre.len() - 1] == c);
            }
            return Some(i);
        }
        proof {
            let pre = s@.subrange(0, (i + 1) as int);
            assert(pre[pre.len() - 1] != c);
            assert(pre.drop_last() =~= s@.subrange(0, i as int));
        }
    }
    proof {
        assert(s@.subrange(0, 0) =~= Seq::<char>::empty());
    }
    None
}

/// Derives the logical name from a path.
pub fn file_stem_x(p: &str) -> (r: String)
    ensures
        r@ == file_stem(p@),
{
    let len = p.unicode_len();
    let start = match last_index_x(p, len, '/') {
        Some(i) => i + 1,
        None => 0,
    };
    let base = p.substring_char(start, len);
    let base_len = base.unicode_len();
    let d = last_index_x(base, base_len, '.');
    let stem = match d {
        Some(di) => {
            if di == 0 {
                base
            } else {
                base.substring_char(0, di)
            }
        },
        None => base,
    };
    String::from_str(stem)
}

pub fn has_mp3_extension_x(p: &str) -> (r: bool)
    ensures
        r == has_mp3_extension(p@),
{
    let len = p.unicode_len();
    if len < 4 {
        proof {
            reveal_strlit(".mp3");
        }
        return false;
    }
    let tail_eq = p.get_char(len - 4) == '.' && p.get_char(len - 3) == 'm' && p.get_char(len - 2)
        == 'p' && p.get_char(len - 1) == '3';
    proof {
        reveal_strlit(".mp3");
        if tail_eq {
            assert(p@.subrange(p@.len() - 4, p@.len() as int) =~= ".mp3"@);
        } else {
            assert(p@.subrange(p@.len() - 4, p@.len() as int) != ".mp3"@) by {
                if p@.subrange(p@.len() - 4, p@.len() as int) == ".mp3"@ {
                    let sub = p@.subrange(p@.len() - 4, p@.len() as int);
                    assert(sub[0] == p@[p@.len() - 4] && sub[0] == '.');
                    assert(sub[1] == p@[p@.len() - 3] && sub[1] == 'm');
                    assert(sub[2] == p@[p@.len() - 2] && sub[2] == 'p');
                    assert(sub[3] == p@[p@.len() - 1] && sub[3] == '3');
                }
            }
        }
    }
    tail_eq
}

// ---------------------------------------------------------------------------
// Sound files
// ---------------------------------------------------------------------------

/// One catalog entry: a name, the path it came from, and metadata that is
/// computed at most once and kept.
#[derive(Debug, PartialEq, Eq)]
pub struct SoundFile {
    pub name: String,
    pub path: String,
    /// Written at most once, by a constructor or [`SoundFile::set_metadata`].
    pub metadata: Option<Metadata>,
}

/// The mathematical value of a [`SoundFile`].
pub struct SoundFileV {
    pub name: Seq<char>,
    pub path: Seq<char>,
    pub metadata: Option<MetadataV>,
}

impl View for SoundFile {
    type V = SoundFileV;

    open spec fn view(&self) -> SoundFileV {
        SoundFileV {
            name: self.name@,
            path: self.path@,
            metadata: match self.metadata {
                Some(ref m) => Some(m@),
                None => None,
            },
        }
    }
}

impl SoundFileV {
    pub open spec fn has_metadata(&self) -> bool {
        self.metadata is Some
    }

    pub open spec fn meta(&self) -> MetadataV {
        self.metadata->Some_0
    }
}

impl Clone for SoundFile {
    fn clone(&self) -> (r: Self)
        ensures
            r@ == self@,
    {
        SoundFile {
            name: self.name.clone(),
            path: self.path.clone(),
            metadata: match self.metadata {
                Some(ref m) => Some(m.clone()),
                None => None,
            },
        }
    }
}

impl SoundFile {
    /// A file whose metadata has not been read yet; the name is the path's
    /// stem.
    pub fn new_unchecked(path: String) -> (r: Self)
        ensures
            r@.name == file_stem(path@),
            r@.path == path@,
            !r@.has_metadata(),
    {
        let name = file_stem_x(path.as_str());
        SoundFile { name, path, metadata: None }
    }

    /// A file together with its metadata, for sources that must be checked
    /// before they enter the catalog.
    pub fn new_checked(path: String, metadata: Metadata) -> (r: Self)
        ensures
            r@.name == file_stem(path@),
            r@.path == path@,
            r@.has_metadata(),
            r@.meta() == metadata@,
    {
        let name = file_stem_x(path.as_str());
        SoundFile { name, path, metadata: Some(metadata) }
    }

    /// Memoizes metadata computed later; at most once per instance.
    pub fn set_metadata(&mut self, metadata: Metadata)
        requires
            !old(self)@.has_metadata(),
        ensures
            final(self)@.name == old(self)@.name,
            final(self)@.path == old(self)@.path,
            final(self)@.has_metadata(),
            final(self)@.meta() == metadata@,
    {
        self.metadata = Some(metadata);
    }

    pub fn sample_rate_hz(&self) -> (r: u32)
        requires
            self@.has_metadata(),
        ensures
            r == self@.meta().sample_rate_hz,
    {
        match self.metadata {
            Some(ref m) => m.sample_rate_hz,
            None => 0,
        }
    }

    pub fn channel_count(&self) -> (r: u8)
        requires
            self@.has_metadata(),
        ensures
            r == self@.meta().channel_count,
    {
        match self.metadata {
            Some(ref m) => m.channel_count,
            None => 0,
        }
    }

    /// The file's duration in milliseconds.
    pub fn duration(&self) -> (r: u32)
        requires
            self@.has_metadata(),
        ensures
            r == self@.meta().duration_ms,
    {
        match self.metadata {
            Some(ref m) => m.duration_ms,
            None => 0,
        }
    }

    /// Milliseconds since the epoch of the file's last modification.
    pub fn updated_at(&self) -> (r: u64)
        requires
            self@.has_metadata(),
        ensures
            r == self@.meta().updated_at_ms,
    {
        match self.metadata {
            Some(ref m) => m.updated_at_ms,
            None => 0,
        }
    }

    /// The de-duplicated text tags found in the file.
    pub fn references(&self) -> (r: Vec<String>)
        requires
            self@.has_metadata(),
        ensures
            r@.map_values(|s: String| s@) == self@.meta().references,
    {
        match self.metadata {
            Some(ref m) => {
                let c = m.clone();
                c.references
            },
            None => Vec::new(),
        }
    }
}

// ---------------------------------------------------------------------------
// The catalog
// ---------------------------------------------------------------------------

/// The first index of `k` in `keys`, or `-1`.
pub open spec fn find_key(keys: Seq<Seq<char>>, k: Seq<char>) -> int
    decreases keys.len(),
{
    if keys.len() == 0 {
        -1
    } else if keys[0] == k {
        0
    } else {
        let r = find_key(keys.drop_first(), k);
        if r == -1 {
            -1
        } else {
            r + 1
        }
    }
}

pub proof fn lemma_find_key(keys: Seq<Seq<char>>, k: Seq<char>)
    ensures
        find_key(keys, k) >= -1,
        find_key(keys, k) == -1 <==> (forall|i: int| 0 <= i < keys.len() ==> keys[i] != k),
        find_key(keys, k) >= 0 ==> {
            &&& find_key(keys, k) < keys.len()
            &&& keys[find_key(keys, k)] == k
            &&& forall|i: int| 0 <= i < find_key(keys, k) ==> keys[i] != k
        },
    decreases keys.len(),
{
    if keys.len() == 0 {
    } else if keys[0] == k {
    } else {
        let tail = keys.drop_first();
        lemma_find_key(tail, k);
        assert forall|j: int| 0 <= j < tail.len() implies #[trigger] tail[j] == keys[j + 1] by {}
        if find_key(tail, k) == -1 {
            assert forall|i: int| 0 <= i < keys.len() implies keys[i] != k by {
                if i >= 1 {
                    assert(tail[i - 1] == keys[i]);
                }
            }
        } else {
            let r = find_key(tail, k);
            assert(keys[r + 1] == tail[r]);
            assert forall|i: int| 0 <= i < r + 1 implies keys[i] != k by {
                if i >= 1 {
                    assert(tail[i - 1] == keys[i]);
                }
            }
        }
    }
}

/// `find_key` returns the first occurrence.
proof fn lemma_find_key_first(keys: Seq<Seq<char>>, k: Seq<char>, i: int)
    requires
        0 <= i < keys.len(),
        keys[i] == k,
        forall|j: int| 0 <= j < i ==> keys[j] != k,
    ensures
        find_key(keys, k) == i,
    decreases keys.len(),
{
    if i > 0 {
        let tail = keys.drop_first();
        assert forall|j: int| 0 <= j < tail.len() implies #[trigger] tail[j] == keys[j + 1] by {}
        lemma_find_key_first(tail, k, i - 1);
    }
}

/// The catalog: a map from lowercased name to sound file, with the
/// directory it was loaded from. Entries keep their insertion order.
#[derive(Debug, PartialEq, Eq)]
pub struct SoundStorage {
    sounds: Vec<(String, SoundFile)>,
    pub dir: String,
}

impl SoundStorage {
    /// The directory the catalog was loaded from.
    pub closed spec fn spec_dir(&self) -> Seq<char> {
        self.dir@
    }

    /// The lowercased keys, in storage order.
    pub closed spec fn keys(&self) -> Seq<Seq<char>> {
        self.sounds@.map_values(|p: (String, SoundFile)| p.0@)
    }

    /// The files, in storage order.
    pub closed spec fn files(&self) -> Seq<SoundFileV> {
        self.sounds@.map_values(|p: (String, SoundFile)| p.1@)
    }

    /// There are as many keys as files, the keys are unique, and each is
    /// the lowercasing of its file's name.
    pub open spec fn wf(&self) -> bool {
        &&& self.keys().len() == self.files().len()
        &&& forall|i: int, j: int|
            0 <= i < j < self.keys().len() ==> self.keys()[i] != self.keys()[j]
        &&& forall|i: int|
            0 <= i < self.keys().len() ==> self.keys()[i] == lower_of(
                #[trigger] self.files()[i].name,
            )
    }

    /// An empty catalog for `dir`; loading a directory is its caller's work,
    /// one `add` per readable file.
    pub fn new(dir: String) -> (r: Self)
        ensures
            r.wf(),
            r.keys().len() == 0,
            r.files().len() == 0,
            r.spec_dir() == dir@,
    {
        let r = SoundStorage { sounds: Vec::new(), dir };
        proof {
            assert(r.keys() =~= Seq::<Seq<char>>::empty());
            assert(r.files() =~= Seq::<SoundFileV>::empty());
        }
        r
    }

    pub fn len(&self) -> (r: usize)
        ensures
            r == self.files().len(),
    {
        self.sounds.len()
    }

    pub fn is_empty(&self) -> (r: bool)
        ensures
            r == (self.files().len() == 0),
    {
        self.sounds.len() == 0
    }

    pub fn file_at(&self, i: usize) -> (r: &SoundFile)
        requires
            i < self.files().len(),
        ensures
            r@ == self.files()[i as int],
    {
        &self.sounds[i].1
    }

    fn find_index(&self, key: &String) -> (r: Option<usize>)
        ensures
            match r {
                Some(i) => find_key(self.keys(), key@) == i as int && i < self.keys().len(),
                None => find_key(self.keys(), key@) == -1,
            },
    {
        let n = self.sounds.len();
        let mut i: usize = 0;
        while i < n
            invariant
                i <= n,
                n == self.keys().len(),
                forall|j: int| 0 <= j < i ==> self.keys()[j] != key@,
            decreases n - i,
        {
            if self.sounds[i].0 == *key {
                proof {
                    lemma_find_key_first(self.keys(), key@, i as int);
                }
                return Some(i);
            }
            i = i + 1;
        }
        proof {
            lemma_find_key(self.keys(), key@);
        }
        None
    }

    /// Case-insensitive lookup. Returns a copy of the entry stored under
    /// the lowercased name, if there is one.
    pub fn get(&self, name: &str) -> (r: Option<SoundFile>)
        ensures
            match r {
                Some(f) => {
                    &&& find_key(self.keys(), lower_of(name@)) >= 0
                    &&& f@ == self.files()[find_key(self.keys(), lower_of(name@))]
                },
                None => find_key(self.keys(), lower_of(name@)) == -1,
            },
    {
        let key = lowercase(name);
        match self.find_index(&key) {
            Some(i) => Some(self.sounds[i].1.clone()),
            None => None,
        }
    }

    /// Inserts `file` under its lowercased name. An entry already under
    /// that key is replaced in place and handed back.
    pub fn add(&mut self, file: SoundFile) -> (r: Option<SoundFile>)
        requires
            old(self).wf(),
        ensures
            final(self).wf(),
            final(self).spec_dir() == old(self).spec_dir(),
            ({
                let k = lower_of(file@.name);
                let idx = find_key(old(self).keys(), k);
                if idx >= 0 {
                    &&& final(self).keys() == old(self).keys()
                    &&& final(self).files() == old(self).files().update(idx, file@)
                    &&& r matches Some(prev) && prev@ == old(self).files()[idx]
                } else {
                    &&& final(self).keys() == old(self).keys().push(k)
                    &&& final(self).files() == old(self).files().push(file@)
                    &&& r is None
                }
            }),
    {
        let ghost file_v = file@;
        let key = lowercase(file.name.as_str());
        match self.find_index(&key) {
            Some(i) => {
                proof {
                    lemma_find_key(self.keys(), key@);
                }
                let old_file = self.sounds[i].1.clone();
                self.sounds[i].1 = file;
                proof {
                    assert(final(self).keys() =~= old(self).keys());
                    assert(final(self).files() =~= old(self).files().update(
                        find_key(old(self).keys(), lower_of(file_v.name)),
                        file_v,
                    ));
                }
                Some(old_file)
            },
            None => {
                proof {
                    lemma_find_key(self.keys(), key@);
                }
                self.sounds.push((key, file));
                proof {
                    assert(final(self).keys() =~= old(self).keys().push(lower_of(file_v.name)));
                    assert(final(self).files() =~= old(self).files().push(file_v));
                }
                None
            },
        }
    }

    /// Removes the entry under the lowercased name, keeping the order of
    /// the others.
    pub fn remove(&mut self, name: &str) -> (r: Option<SoundFile>)
        requires
            old(self).wf(),
        ensures
            final(self).wf(),
            final(self).spec_dir() == old(self).spec_dir(),
            ({
                let idx = find_key(old(self).keys(), lower_of(name@));
                if idx >= 0 {
                    &&& final(self).keys() == old(self).keys().remove(idx)
                    &&& final(self).files() == old(self).files().remove(idx)
                    &&& r matches Some(prev) && prev@ == old(self).files()[idx]
                } else {
                    &&& final(self).keys() == old(self).keys()
                    &&& final(self).files() == old(self).files()
                    &&& r is None
                }
            }),
    {
        let key = lowercase(name);
        match self.find_index(&key) {
            Some(i) => {
                proof {
                    lemma_find_key(self.keys(), key@);
                }
                let (_k, f) = self.sounds.remove(i);
                proof {
                    assert(final(self).keys() =~= old(self).keys().remove(
                        find_key(old(self).keys(), lower_of(name@)),
                    ));
                    assert(final(self).files() =~= old(self).files().remove(
                        find_key(old(self).keys(), lower_of(name@)),
                    ));
                }
                Some(f)
            },
            None => None,
        }
    }

    /// A uniformly random entry, freshly drawn per call; `None` only on an
    /// empty catalog.
    pub fn get_random(&self) -> (r: Option<SoundFile>)
        ensures
            match r {
                Some(f) => exists|i: int| 0 <= i < self.files().len() && f@ == self.files()[i],
                None => self.files().len() == 0,
            },
    {
        let n = self.sounds.len();
        if n == 0 {
            return None;
        }
        let i = random_below(n);
        let f = self.sounds[i].1.clone();
        proof {
            assert(self.files()[i as int] == self.sounds@[i as int].1@);
        }
        Some(f)
    }

    /// Scores every catalog key against the lowercased query and returns
    /// the `(score, file)` pairs sorted by descending score.
    pub fn calc_similarities(&self, query: &str) -> (r: Vec<(u64, SoundFile)>)
        ensures
            r@.len() == self.files().len(),
            forall|i: int, j: int| 0 <= i < j < r@.len() ==> r@[i].0 >= r@[j].0,
            pairs_view(r@).to_multiset() == scored_entries(
                self.keys(),
                self.files(),
                lower_of(query@),
            ).to_multiset(),
    {
        broadcast use vstd::seq_lib::group_to_multiset_ensures;

        let q = lowercase(query);
        let n = self.sounds.len();
        let mut scored: Vec<(u64, SoundFile)> = Vec::new();
        let mut i: usize = 0;
        while i < n
            invariant
                i <= n,
                n == self.keys().len() == self.files().len(),
                scored@.len() == i,
                pairs_view(scored@) == scored_entries(self.keys(), self.files(), lower_of(
                    query@,
                )).take(i as int),
                q@ == lower_of(query@),
            decreases n - i,
        {
            let score = similarity_score(q.as_str(), self.sounds[i].0.as_str());
            let file = self.sounds[i].1.clone();
            scored.push((score, file));
            proof {
                let full = scored_entries(self.keys(), self.files(), lower_of(query@));
                let ghost pv = pairs_view(scored@);
                assert(scored@.len() == i + 1);
                assert(pv.len() == scored@.len());
                assert forall|k: int| 0 <= k < i + 1 implies pv[k] == full.take(i + 1)[k] by {
                    assert(full[k] == (score_of(lower_of(query@), self.keys()[k]),
                        self.files()[k]));
                }
                assert(pairs_view(scored@) =~= full.take((i + 1) as int));
            }
            i = i + 1;
        }
        proof {
            let full = scored_entries(self.keys(), self.files(), lower_of(query@));
            assert(full.take(n as int) =~= full);
        }
        sort_by_score_desc(scored)
    }

    /// The ranked suggestions for a query: the confidently similar names
    /// among the top twenty, or the plain top ten when fewer than ten are
    /// confident.
    pub fn similar_names(&self, query: &str) -> (r: Vec<String>)
        ensures
            exists|sims: Seq<(u64, SoundFileV)>|
                {
                    &&& sims.len() == self.files().len()
                    &&& forall|i: int, j: int| 0 <= i < j < sims.len() ==> sims[i].0 >= sims[j].0
                    &&& sims.to_multiset() == scored_entries(
                        self.keys(),
                        self.files(),
                        lower_of(query@),
                    ).to_multiset()
                    &&& r@.map_values(|s: String| s@) == suggest(sims)
                },
    {
        let sims = self.calc_similarities(query);
        let names = select_suggestions(&sims);
        proof {
            let w = pairs_view(sims@);
            assert(w.len() == self.files().len());
            assert(forall|i: int, j: int| 0 <= i < j < w.len() ==> w[i].0 >= w[j].0);
        }
        names
    }
}

/// Keeps only the lowercased-query scoring of each catalog entry, in
/// catalog order.
pub open spec fn scored_entries(keys: Seq<Seq<char>>, files: Seq<SoundFileV>, q: Seq<char>) -> Seq<
    (u64, SoundFileV),
> {
    Seq::new(keys.len(), |i: int| (score_of(q, keys[i]), files[i]))
}

/// The pairs of a similarity vector, by value.
pub open spec fn pairs_view(s: Seq<(u64, SoundFile)>) -> Seq<(u64, SoundFileV)> {
    s.map_values(|p: (u64, SoundFile)| (p.0, p.1@))
}

/// The similarity of two pieces of text under the Jaro-Winkler metric. The
/// score is carried as the bit pattern of the metric's value, which lies in
/// `[0, 1]`; on that non-negative range bit patterns order exactly as the
/// values do, so contracts compare and sort the carriers directly.
pub uninterp spec fn score_of(query: Seq<char>, name: Seq<char>) -> u64;

/// Relies on `strsim::jaro_winkler`: the score depends on the two strings
/// alone, and `f64::to_bits` carries it faithfully.
#[verifier::external_body]
fn similarity_score(query: &str, name: &str) -> (r: u64)
    ensures
        r == score_of(query@, name@),
{
    strsim::jaro_winkler(query, name).to_bits()
}

/// The carrier of the score 0.85, the floor for a confident suggestion.
pub const SCORE_THRESHOLD_BITS: u64 = 0x3FEB333333333333;

/// Relies on `rand::rng` and `RngExt::random_range`: whatever was drawn, it
/// lies below `n`.
#[verifier::external_body]
fn random_below(n: usize) -> (r: usize)
    requires
        n > 0,
    ensures
        r < n,
{
    <rand::rngs::ThreadRng as rand::RngExt>::random_range(&mut rand::rng(), 0..n)
}

fn max_score_index(v: &Vec<(u64, SoundFile)>) -> (r: usize)
    requires
        v@.len() > 0,
    ensures
        r < v@.len(),
        forall|k: int| 0 <= k < v@.len() ==> v@[r as int].0 >= v@[k].0,
{
    let n = v.len();
    let mut best: usize = 0;
    let mut i: usize = 1;
    while i < n
        invariant
            best < i <= n,
            n == v@.len(),
            forall|k: int| 0 <= k < i ==> v@[best as int].0 >= v@[k].0,
        decreases n - i,
    {
        if v[i].0 > v[best].0 {
            best = i;
        }
        i = i + 1;
    }
    best
}

/// Sorts the pairs by descending score; the pairs themselves are only
/// rearranged.
fn sort_by_score_desc(mut v: Vec<(u64, SoundFile)>) -> (r: Vec<(u64, SoundFile)>)
    ensures
        r@.len() == v@.len(),
        forall|i: int, j: int| 0 <= i < j < r@.len() ==> r@[i].0 >= r@[j].0,
        pairs_view(r@).to_multiset() == pairs_view(v@).to_multiset(),
{
    broadcast use vstd::seq_lib::group_to_multiset_ensures;

    let ghost orig = pairs_view(v@);
    let mut out: Vec<(u64, SoundFile)> = Vec::new();
    proof {
        assert(pairs_view(out@) =~= Seq::<(u64, SoundFileV)>::empty());
        assert(pairs_view(out@).to_multiset().add(pairs_view(v@).to_multiset()) =~=
            orig.to_multiset());
    }
    while v.len() > 0
        invariant
            out@.len() + v@.len() == orig.len(),
            forall|i: int, j: int| 0 <= i < j < out@.len() ==> out@[i].0 >= out@[j].0,
            forall|i: int, j: int|
                0 <= i < out@.len() && 0 <= j < v@.len() ==> out@[i].0 >= v@[j].0,
            pairs_view(out@).to_multiset().add(pairs_view(v@).to_multiset())
                == orig.to_multiset(),
        decreases v@.len(),
    {
        let ghost pre_v = pairs_view(v@);
        let ghost pre_out = pairs_view(out@);
        let idx = max_score_index(&v);
        let x = v.remove(idx);
        out.push(x);
        proof {
            let e = (x.0, x.1@);
            assert(pairs_view(v@) =~= pre_v.remove(idx as int));
            assert(pairs_view(out@) =~= pre_out.push(e));
            assert(pre_v[idx as int] == e);
            pre_v.to_multiset_ensures();
            pre_out.to_multiset_ensures();
            assert(pre_v.remove(idx as int).to_multiset() =~= pre_v.to_multiset().remove(e));
            assert(pre_out.push(e).to_multiset() =~= pre_out.to_multiset().insert(e));
            assert(pre_out.to_multiset().insert(e).add(pre_v.to_multiset().remove(e))
                =~= pre_out.to_multiset().add(pre_v.to_multiset()));
        }
    }
    out
}

/// What the ranked list suggests for one query: of the twenty best scores,
/// the names above the confidence floor; when fewer than ten clear it, the
/// ten best names outright.
pub open spec fn suggest(sims: Seq<(u64, SoundFileV)>) -> Seq<Seq<char>> {
    let confident = confident_names(sims);
    if confident.len() < 10 {
        top_names(sims, 10)
    } else {
        confident
    }
}

/// The names among the twenty best scores that clear the confidence floor.
pub open spec fn confident_names(sims: Seq<(u64, SoundFileV)>) -> Seq<Seq<char>> {
    sims.take(if sims.len() < 20 {
        sims.len() as int
    } else {
        20
    }).filter(|p: (u64, SoundFileV)| p.0 > SCORE_THRESHOLD_BITS).map_values(
        |p: (u64, SoundFileV)| p.1.name,
    )
}

/// The names of the `k` best scores.
pub open spec fn top_names(sims: Seq<(u64, SoundFileV)>, k: int) -> Seq<Seq<char>> {
    sims.take(if sims.len() < k {
        sims.len() as int
    } else {
        k
    }).map_values(|p: (u64, SoundFileV)| p.1.name)
}

/// The suggestion rule applied to a ranked similarity vector.
fn select_suggestions(sims: &Vec<(u64, SoundFile)>) -> (r: Vec<String>)
    ensures
        r@.map_values(|s: String| s@) == suggest(pairs_view(sims@)),
{
    let ghost w = pairs_view(sims@);
    let take20: usize = if sims.len() < 20 {
        sims.len()
    } else {
        20
    };
    let mut confident: Vec<String> = Vec::new();
    let mut i: usize = 0;
    proof {
        reveal(Seq::filter);
        assert(w.take(0).filter(|p: (u64, SoundFileV)| p.0 > SCORE_THRESHOLD_BITS) =~= Seq::<(
            u64,
            SoundFileV,
        )>::empty());
        assert(confident@.map_values(|s: String| s@) =~= w.take(0).filter(
            |p: (u64, SoundFileV)| p.0 > SCORE_THRESHOLD_BITS,
        ).map_values(|p: (u64, SoundFileV)| p.1.name));
    }
    while i < take20
        invariant
            i <= take20 <= sims@.len(),
            w == pairs_view(sims@),
            confident@.map_values(|s: String| s@) == w.take(i as int).filter(
                |p: (u64, SoundFileV)| p.0 > SCORE_THRESHOLD_BITS,
            ).map_values(|p: (u64, SoundFileV)| p.1.name),
        decreases take20 - i,
    {
        let ghost pre = w.take(i as int);
        let ghost pre_names = confident@.map_values(|s: String| s@);
        if sims[i].0 > SCORE_THRESHOLD_BITS {
            confident.push(sims[i].1.name.clone());
            proof {
                assert(confident@.map_values(|s: String| s@) =~= pre_names.push(
                    w[i as int].1.name,
                ));
            }
        }
        proof {
            reveal(Seq::filter);
            assert(w.take((i + 1) as int) =~= pre.push(w[i as int]));
            assert(pre.push(w[i as int]).drop_last() =~= pre);
            assert(pre.push(w[i as int]).filter(|p: (u64, SoundFileV)| p.0 > SCORE_THRESHOLD_BITS)
                =~= if w[i as int].0 > SCORE_THRESHOLD_BITS {
                pre.filter(|p: (u64, SoundFileV)| p.0 > SCORE_THRESHOLD_BITS).push(w[i as int])
            } else {
                pre.filter(|p: (u64, SoundFileV)| p.0 > SCORE_THRESHOLD_BITS)
            });
            assert(confident@.map_values(|s: String| s@) =~= w.take((i + 1) as int).filter(
                |p: (u64, SoundFileV)| p.0 > SCORE_THRESHOLD_BITS,
            ).map_values(|p: (u64, SoundFileV)| p.1.name));
        }
        i = i + 1;
    }
    proof {
        assert(w.take(take20 as int).filter(
            |p: (u64, SoundFileV)| p.0 > SCORE_THRESHOLD_BITS,
        ).map_values(|p: (u64, SoundFileV)| p.1.name) =~= confident_names(w));
    }
    if confident.len() < 10 {
        let take10: usize = if sims.len() < 10 {
            sims.len()
        } else {
            10
        };
        let mut names: Vec<String> = Vec::new();
        let mut j: usize = 0;
        proof {
            assert(names@.map_values(|s: String| s@) =~= w.take(0).map_values(
                |p: (u64, SoundFileV)| p.1.name,
            ));
        }
        while j < take10
            invariant
                j <= take10 <= sims@.len(),
                w == pairs_view(sims@),
                names@.map_values(|s: String| s@) == w.take(j as int).map_values(
                    |p: (u64, SoundFileV)| p.1.name,
                ),
            decreases take10 - j,
        {
            let ghost pre = w.take(j as int);
            let ghost pre_names = names@.map_values(|s: String| s@);
            names.push(sims[j].1.name.clone());
            proof {
                assert(names@.map_values(|s: String| s@) =~= pre_names.push(w[j as int].1.name));
                assert(w.take((j + 1) as int) =~= pre.push(w[j as int]));
                assert(names@.map_values(|s: String| s@) =~= w.take((j + 1) as int).map_values(
                    |p: (u64, SoundFileV)| p.1.name,
                ));
            }
            j = j + 1;
        }
        proof {
            assert(names@.map_values(|s: String| s@) =~= top_names(w, 10));
        }
        names
    } else {
        confident
    }
}

/// A filtered prefix is never longer than the filtered whole.
proof fn lemma_filter_take_le(s: Seq<(u64, SoundFileV)>, p: spec_fn((u64, SoundFileV)) -> bool, k: int)
    requires
        0 <= k <= s.len(),
    ensures
        s.take(k).filter(p).len() <= s.filter(p).len(),
    decreases s.len() - k,
{
    if k < s.len() {
        lemma_filter_take_le(s, p, k + 1);
        reveal(Seq::filter);
        assert(s.take(k + 1) =~= s.take(k).push(s[k]));
        assert(s.take(k + 1).drop_last() =~= s.take(k));
        assert(s.take(k).filter(p).len() <= s.take(k + 1).filter(p).len());
    } else {
        assert(s.take(k) =~= s);
    }
}

/// The fuzzy-search floor: when fewer than ten entries of the whole catalog
/// score above the confidence threshold, the result falls back to the plain
/// top ten, so a catalog of at least ten sounds still yields exactly ten
/// suggestions.
pub proof fn lemma_suggestion_floor(sims: Seq<(u64, SoundFileV)>)
    requires
        sims.len() >= 10,
        sims.filter(|p: (u64, SoundFileV)| p.0 > SCORE_THRESHOLD_BITS).len() < 10,
    ensures
        suggest(sims).len() == 10,
{
    let t20: int = if sims.len() < 20 {
        sims.len() as int
    } else {
        20
    };
    lemma_filter_take_le(sims, |p: (u64, SoundFileV)| p.0 > SCORE_THRESHOLD_BITS, t20);
    assert(confident_names(sims).len() < 10);
    assert(sims.take(10).len() == 10);
}

// ---------------------------------------------------------------------------
// Computing metadata from decoded frames and tags
// ---------------------------------------------------------------------------

/// Occurrences of `x` in `s`.
pub open spec fn count_val(s: Seq<u32>, x: u32) -> int
    decreases s.len(),
{
    if s.len() == 0 {
        0
    } else {
        count_val(s.drop_last(), x) + if s.last() == x {
            1int
        } else {
            0int
        }
    }
}

proof fn lemma_count_val_bounds(s: Seq<u32>, x: u32)
    ensures
        0 <= count_val(s, x) <= s.len(),
        !s.contains(x) ==> count_val(s, x) == 0,
    decreases s.len(),
{
    if s.len() > 0 {
        lemma_count_val_bounds(s.drop_last(), x);
        if !s.contains(x) {
            assert(s.last() != x);
            assert forall|j: int| 0 <= j < s.drop_last().len() implies s.drop_last()[j] != x by {
                assert(s.drop_last()[j] == s[j]);
            }
            assert(!s.drop_last().contains(x));
        }
    }
}

fn count_val_x(v: &Vec<u32>, x: u32) -> (r: usize)
    ensures
        r == count_val(v@, x),
{
    let n = v.len();
    let mut c: usize = 0;
    let mut k: usize = 0;
    proof {
        assert(v@.subrange(0, 0) =~= Seq::<u32>::empty());
    }
    while k < n
        invariant
            k <= n,
            n == v@.len(),
            c <= k,
            c == count_val(v@.subrange(0, k as int), x),
        decreases n - k,
    {
        proof {
            let pre = v@.subrange(0, (k + 1) as int);
            assert(pre.drop_last() =~= v@.subrange(0, k as int));
            assert(pre.last() == v@[k as int]);
        }
        if v[k] == x {
            c = c + 1;
        }
        k = k + 1;
    }
    proof {
        assert(v@.subrange(0, n as int) =~= v@);
    }
    c
}

/// A value of `v` that no other value outnumbers; ties go to the earliest
/// such value.
pub fn most_common(v: &Vec<u32>) -> (r: u32)
    requires
        v@.len() > 0,
    ensures
        v@.contains(r),
        forall|x: u32| count_val(v@, x) <= count_val(v@, r),
{
    let n = v.len();
    let mut best: u32 = v[0];
    let mut best_count = count_val_x(v, v[0]);
    let mut i: usize = 1;
    proof {
        assert(v@.contains(v@[0]));
    }
    while i < n
        invariant
            1 <= i <= n,
            n == v@.len(),
            v@.contains(best),
            best_count == count_val(v@, best),
            forall|k: int| 0 <= k < i ==> count_val(v@, v@[k]) <= best_count,
        decreases n - i,
    {
        let c = count_val_x(v, v[i]);
        if c > best_count {
            best = v[i];
            best_count = c;
            proof {
                assert(v@.contains(v@[i as int]));
            }
        }
        i = i + 1;
    }
    proof {
        assert forall|x: u32| count_val(v@, x) <= count_val(v@, best) by {
            if v@.contains(x) {
                let k = choose|k: int| 0 <= k < v@.len() && v@[k] == x;
            } else {
                lemma_count_val_bounds(v@, x);
                lemma_count_val_bounds(v@, best);
            }
        }
    }
    best
}

/// What text tags are trimmed of: NUL padding and ASCII whitespace.
pub open spec fn is_trim_char(c: char) -> bool {
    c as u32 == 0 || c == ' ' || c == '\t' || c == '\r' || c == '\n'
}

pub open spec fn trim_front(s: Seq<char>) -> Seq<char>
    decreases s.len(),
{
    if s.len() > 0 && is_trim_char(s[0]) {
        trim_front(s.drop_first())
    } else {
        s
    }
}

pub open spec fn trim_back(s: Seq<char>) -> Seq<char>
    decreases s.len(),
{
    if s.len() > 0 && is_trim_char(s.last()) {
        trim_back(s.drop_last())
    } else {
        s
    }
}

/// A tag with its NUL padding and surrounding whitespace removed.
pub open spec fn trimmed(s: Seq<char>) -> Seq<char> {
    trim_back(trim_front(s))
}

proof fn lemma_trim_front(s: Seq<char>, i: int)
    requires
        0 <= i <= s.len(),
        forall|j: int| 0 <= j < i ==> is_trim_char(s[j]),
        i < s.len() ==> !is_trim_char(s[i]),
    ensures
        trim_front(s) =~= s.subrange(i, s.len() as int),
    decreases i,
{
    if i > 0 {
        lemma_trim_front(s.drop_first(), i - 1);
        assert(s.drop_first().subrange(i - 1, s.drop_first().len() as int) =~= s.subrange(
            i,
            s.len() as int,
        ));
    } else {
        assert(s.subrange(0, s.len() as int) =~= s);
    }
}

proof fn lemma_trim_back(s: Seq<char>, b: int)
    requires
        0 <= b <= s.len(),
        forall|j: int| b <= j < s.len() ==> is_trim_char(s[j]),
        b > 0 ==> !is_trim_char(s[b - 1]),
    ensures
        trim_back(s) =~= s.subrange(0, b),
    decreases s.len() - b,
{
    if b < s.len() {
        lemma_trim_back(s.drop_last(), b);
        assert(s.drop_last().subrange(0, b) =~= s.subrange(0, b));
    } else {
        assert(s.subrange(0, s.len() as int) =~= s);
    }
}

fn char_is_trim(c: char) -> (r: bool)
    ensures
        r == is_trim_char(c),
{
    (c as u32) == 0 || c == ' ' || c == '\t' || c == '\r' || c == '\n'
}

/// Removes NUL padding and surrounding whitespace.
pub fn trim_text(s: &str) -> (r: String)
    ensures
        r@ == trimmed(s@),
{
    let len = s.unicode_len();
    let mut a: usize = 0;
    while a < len && char_is_trim(s.get_char(a))
        invariant
            a <= len,
            len == s@.len(),
            forall|j: int| 0 <= j < a ==> is_trim_char(s@[j]),
        decreases len - a,
    {
        a = a + 1;
    }
    proof {
        lemma_trim_front(s@, a as int);
    }
    if a == len {
        proof {
            assert(s@.subrange(a as int, s@.len() as int) =~= Seq::<char>::empty());
        }
        return String::new();
    }
    let mut b: usize = len;
    while b > a && char_is_trim(s.get_char(b - 1))
        invariant
            a <= b <= len,
            len == s@.len(),
            forall|j: int| b <= j < len ==> is_trim_char(s@[j]),
        decreases b,
    {
        b = b - 1;
    }
    proof {
        let front = s@.subrange(a as int, s@.len() as int);
        assert(b > a);
        assert(!is_trim_char(s@[b - 1]));
        assert forall|j: int| (b - a) <= j < front.len() implies is_trim_char(front[j]) by {
            assert(front[j] == s@[j + a]);
        }
        assert(front[b - a - 1] == s@[b - 1]);
        lemma_trim_back(front, b - a);
        assert(front.subrange(0, b - a) =~= s@.subrange(a as int, b as int));
    }
    let piece = s.substring_char(a, b);
    String::from_str(piece)
}

/// Strict lexicographic order on text, by code point: a proper prefix goes
/// first, otherwise the first differing character decides. This is the
/// order `str` comparison gives, since UTF-8 bytes order as code points do.
pub open spec fn str_lt(a: Seq<char>, b: Seq<char>) -> bool
    decreases a.len(),
{
    if b.len() == 0 {
        false
    } else if a.len() == 0 {
        true
    } else if a[0] != b[0] {
        (a[0] as u32) < (b[0] as u32)
    } else {
        str_lt(a.drop_first(), b.drop_first())
    }
}

/// `str_lt` is asymmetric and total: of two pieces of text, exactly one of
/// `a < b`, `a == b`, `b < a` holds.
proof fn lemma_str_lt_props(a: Seq<char>, b: Seq<char>)
    ensures
        str_lt(a, b) ==> !str_lt(b, a) && a != b,
        !str_lt(a, b) && !str_lt(b, a) ==> a == b,
    decreases a.len(),
{
    if a.len() == 0 && b.len() == 0 {
        assert(a =~= b);
    } else if a.len() > 0 && b.len() > 0 && a[0] != b[0] {
        // distinct characters have distinct code points
        vstd::utf8::char_u32_cast(a[0], a[0] as u32);
        vstd::utf8::char_u32_cast(b[0], b[0] as u32);
        assert((a[0] as u32) != (b[0] as u32));
    } else if a.len() > 0 && b.len() > 0 && a[0] == b[0] {
        lemma_str_lt_props(a.drop_first(), b.drop_first());
        if str_lt(a, b) {
            if a == b {
                assert(a.drop_first() =~= b.drop_first());
            }
        }
        if !str_lt(a, b) && !str_lt(b, a) {
            assert(a.drop_first() == b.drop_first());
            assert(a.len() == b.len());
            assert forall|i: int| 0 <= i < a.len() implies a[i] == b[i] by {
                if i > 0 {
                    assert(a[i] == a.drop_first()[i - 1]);
                    assert(b[i] == b.drop_first()[i - 1]);
                }
            }
            assert(a =~= b);
        }
    }
}

proof fn lemma_str_lt_trans(a: Seq<char>, b: Seq<char>, c: Seq<char>)
    requires
        str_lt(a, b),
        str_lt(b, c),
    ensures
        str_lt(a, c),
    decreases a.len() + b.len() + c.len(),
{
    if a.len() > 0 && b.len() > 0 && c.len() > 0 && a[0] == b[0] && b[0] == c[0] {
        lemma_str_lt_trans(a.drop_first(), b.drop_first(), c.drop_first());
    }
}

/// Inserts `x` into a sorted duplicate-free list, keeping it so; a value
/// already present is dropped.
pub open spec fn insert_sorted(s: Seq<Seq<char>>, x: Seq<char>) -> Seq<Seq<char>>
    decreases s.len(),
{
    if s.len() == 0 {
        seq![x]
    } else if x == s[0] {
        s
    } else if str_lt(x, s[0]) {
        seq![x] + s
    } else {
        seq![s[0]] + insert_sorted(s.drop_first(), x)
    }
}

/// The sorted, duplicate-free arrangement of the values of `s`.
pub open spec fn sorted_unique(s: Seq<Seq<char>>) -> Seq<Seq<char>>
    decreases s.len(),
{
    if s.len() == 0 {
        Seq::empty()
    } else {
        insert_sorted(sorted_unique(s.drop_last()), s.last())
    }
}

/// Every element of the inserted list is `x` or came from the list.
proof fn lemma_insert_sorted_elems(s: Seq<Seq<char>>, x: Seq<char>)
    ensures
        forall|k: int|
            0 <= k < insert_sorted(s, x).len() ==> (#[trigger] insert_sorted(s, x)[k] == x
                || s.contains(insert_sorted(s, x)[k])),
    decreases s.len(),
{
    if s.len() > 0 && x != s[0] && !str_lt(x, s[0]) {
        let tail = s.drop_first();
        lemma_insert_sorted_elems(tail, x);
        assert forall|k: int|
            0 <= k < insert_sorted(s, x).len() implies (#[trigger] insert_sorted(s, x)[k] == x
            || s.contains(insert_sorted(s, x)[k])) by {
            if k > 0 {
                let e = insert_sorted(tail, x)[k - 1];
                assert(insert_sorted(s, x)[k] == e);
                if e != x {
                    let j = choose|j: int| 0 <= j < tail.len() && tail[j] == e;
                    assert(s[j + 1] == e);
                }
            }
        }
    }
}

/// Inserting into a strictly ascending list keeps it strictly ascending.
proof fn lemma_insert_sorted_keeps_sorted(s: Seq<Seq<char>>, x: Seq<char>)
    requires
        forall|i: int, j: int| 0 <= i < j < s.len() ==> str_lt(#[trigger] s[i], #[trigger] s[j]),
    ensures
        forall|i: int, j: int|
            0 <= i < j < insert_sorted(s, x).len() ==> str_lt(
                #[trigger] insert_sorted(s, x)[i],
                #[trigger] insert_sorted(s, x)[j],
            ),
    decreases s.len(),
{
    if s.len() == 0 {
    } else if x == s[0] {
    } else if str_lt(x, s[0]) {
        let out = insert_sorted(s, x);
        assert forall|i: int, j: int| 0 <= i < j < out.len() implies str_lt(out[i], out[j]) by {
            if i == 0 {
                if j > 1 {
                    lemma_str_lt_trans(x, s[0], s[j - 1]);
                }
            }
        }
    } else {
        lemma_str_lt_props(x, s[0]);
        let tail = s.drop_first();
        assert(forall|i: int, j: int|
            0 <= i < j < tail.len() ==> str_lt(#[trigger] tail[i], #[trigger] tail[j]));
        lemma_insert_sorted_keeps_sorted(tail, x);
        lemma_insert_sorted_elems(tail, x);
        let inner = insert_sorted(tail, x);
        let out = insert_sorted(s, x);
        assert forall|i: int, j: int| 0 <= i < j < out.len() implies str_lt(out[i], out[j]) by {
            if i == 0 {
                let e = inner[j - 1];
                assert(out[j] == e);
                if e == x {
                } else {
                    let k = choose|k: int| 0 <= k < tail.len() && tail[k] == e;
                    assert(s[k + 1] == e);
                }
            } else {
                assert(out[i] == inner[i - 1] && out[j] == inner[j - 1]);
            }
        }
    }
}

/// What `sorted_unique` returns is strictly ascending: sorted, with no
/// duplicate values.
pub proof fn lemma_sorted_unique_sorted(s: Seq<Seq<char>>)
    ensures
        forall|i: int, j: int|
            0 <= i < j < sorted_unique(s).len() ==> str_lt(
                #[trigger] sorted_unique(s)[i],
                #[trigger] sorted_unique(s)[j],
            ),
    decreases s.len(),
{
    if s.len() > 0 {
        lemma_sorted_unique_sorted(s.drop_last());
        lemma_insert_sorted_keeps_sorted(sorted_unique(s.drop_last()), s.last());
    }
}

/// The text tags of a file: each tag trimmed, empty ones dropped, the
/// result sorted with duplicates removed.
pub open spec fn references_of(tags: Seq<Seq<char>>) -> Seq<Seq<char>> {
    sorted_unique(tags.map_values(|t: Seq<char>| trimmed(t)).filter(|t: Seq<char>| t.len() > 0))
}

/// A file's references are sorted and duplicate-free.
pub proof fn lemma_references_sorted(tags: Seq<Seq<char>>)
    ensures
        forall|i: int, j: int|
            0 <= i < j < references_of(tags).len() ==> str_lt(
                #[trigger] references_of(tags)[i],
                #[trigger] references_of(tags)[j],
            ),
{
    lemma_sorted_unique_sorted(
        tags.map_values(|t: Seq<char>| trimmed(t)).filter(|t: Seq<char>| t.len() > 0),
    );
}

fn str_lt_x(a: &str, b: &str) -> (r: bool)
    ensures
        r == str_lt(a@, b@),
{
    let a_len = a.unicode_len();
    let b_len = b.unicode_len();
    let mut i: usize = 0;
    proof {
        assert(a@.skip(0) =~= a@);
        assert(b@.skip(0) =~= b@);
    }
    loop
        invariant
            i <= a_len,
            i <= b_len,
            a_len == a@.len(),
            b_len == b@.len(),
            str_lt(a@, b@) == str_lt(a@.skip(i as int), b@.skip(i as int)),
        decreases a_len - i,
    {
        proof {
            let ra = a@.skip(i as int);
            let rb = b@.skip(i as int);
            if i < a_len && i < b_len {
                assert(ra[0] == a@[i as int] && rb[0] == b@[i as int]);
                assert(ra.drop_first() =~= a@.skip((i + 1) as int));
                assert(rb.drop_first() =~= b@.skip((i + 1) as int));
            }
        }
        if i >= b_len {
            return false;
        }
        if i >= a_len {
            return true;
        }
        let ca = a.get_char(i);
        let cb = b.get_char(i);
        if ca != cb {
            return (ca as u32) < (cb as u32);
        }
        i = i + 1;
    }
}

/// Where the recursive insertion lands: before the first element not below
/// `x`, dropped if that element is `x` itself.
proof fn lemma_insert_sorted_at(w: Seq<Seq<char>>, x: Seq<char>, i: int)
    requires
        0 <= i <= w.len(),
        forall|j: int| 0 <= j < i ==> str_lt(#[trigger] w[j], x),
        i < w.len() ==> !str_lt(w[i], x),
    ensures
        insert_sorted(w, x) == (if i < w.len() && w[i] == x {
            w
        } else {
            w.subrange(0, i) + seq![x] + w.subrange(i, w.len() as int)
        }),
    decreases i,
{
    if i == 0 {
        if w.len() == 0 {
            assert(insert_sorted(w, x) =~= w.subrange(0, 0) + seq![x] + w.subrange(0, 0));
        } else if w[0] == x {
        } else {
            lemma_str_lt_props(w[0], x);
            assert(str_lt(x, w[0]));
            assert(insert_sorted(w, x) =~= w.subrange(0, 0) + seq![x] + w.subrange(
                0,
                w.len() as int,
            ));
        }
    } else {
        lemma_str_lt_props(w[0], x);
        let tail = w.drop_first();
        assert forall|j: int| 0 <= j < i - 1 implies str_lt(#[trigger] tail[j], x) by {
            assert(tail[j] == w[j + 1]);
        }
        if i - 1 < tail.len() {
            assert(tail[i - 1] == w[i]);
        }
        lemma_insert_sorted_at(tail, x, i - 1);
        assert(insert_sorted(w, x) == seq![w[0]] + insert_sorted(tail, x));
        if i < w.len() && w[i] == x {
            assert(insert_sorted(w, x) =~= w);
        } else {
            assert(seq![w[0]] + (tail.subrange(0, i - 1) + seq![x] + tail.subrange(
                i - 1,
                tail.len() as int,
            )) =~= w.subrange(0, i) + seq![x] + w.subrange(i, w.len() as int));
        }
    }
}

/// Inserts a tag into the sorted duplicate-free list, as
/// [`insert_sorted`] describes.
fn insert_sorted_x(v: &mut Vec<String>, x: String)
    ensures
        final(v)@.map_values(|s: String| s@) == insert_sorted(
            old(v)@.map_values(|s: String| s@),
            x@,
        ),
{
    let ghost w = v@.map_values(|s: String| s@);
    let n = v.len();
    let mut i: usize = 0;
    while i < n && str_lt_x(v[i].as_str(), x.as_str())
        invariant
            i <= n,
            n == v@.len(),
            w == v@.map_values(|s: String| s@),
            forall|j: int| 0 <= j < i ==> str_lt(#[trigger] w[j], x@),
        decreases n - i,
    {
        i = i + 1;
    }
    proof {
        lemma_insert_sorted_at(w, x@, i as int);
    }
    if i < n && v[i].eq(&x) {
        return ;
    }
    v.insert(i, x);
    proof {
        assert(final(v)@.map_values(|s: String| s@) =~= w.subrange(0, i as int) + seq![x@]
            + w.subrange(i as int, w.len() as int));
    }
}

/// Computes the text tags of [`references_of`].
fn compute_references(tags_in: &Vec<String>) -> (r: Vec<String>)
    ensures
        r@.map_values(|s: String| s@) == references_of(tags_in@.map_values(|s: String| s@)),
{
    let ghost tags = tags_in@.map_values(|s: String| s@);
    let n = tags_in.len();
    // trim and drop empties
    let mut cleaned: Vec<String> = Vec::new();
    let mut i: usize = 0;
    proof {
        reveal(Seq::filter);
        assert(tags.take(0).map_values(|t: Seq<char>| trimmed(t)).filter(
            |t: Seq<char>| t.len() > 0,
        ) =~= Seq::<Seq<char>>::empty());
        assert(cleaned@.map_values(|s: String| s@) =~= tags.take(0).map_values(
            |t: Seq<char>| trimmed(t),
        ).filter(|t: Seq<char>| t.len() > 0));
    }
    while i < n
        invariant
            i <= n,
            n == tags_in@.len(),
            tags == tags_in@.map_values(|s: String| s@),
            cleaned@.map_values(|s: String| s@) == tags.take(i as int).map_values(
                |t: Seq<char>| trimmed(t),
            ).filter(|t: Seq<char>| t.len() > 0),
        decreases n - i,
    {
        let ghost pre = tags.take(i as int).map_values(|t: Seq<char>| trimmed(t));
        let ghost pre_out = cleaned@.map_values(|s: String| s@);
        let t = trim_text(tags_in[i].as_str());
        if t.as_str().unicode_len() > 0 {
            cleaned.push(t);
        }
        proof {
            reveal(Seq::filter);
            let this = trimmed(tags[i as int]);
            assert(tags.take((i + 1) as int) =~= tags.take(i as int).push(tags[i as int]));
            assert(tags.take((i + 1) as int).map_values(|t: Seq<char>| trimmed(t)) =~= pre.push(
                this,
            ));
            assert(pre.push(this).drop_last() =~= pre);
            assert(pre.push(this).filter(|t: Seq<char>| t.len() > 0) =~= if this.len() > 0 {
                pre.filter(|t: Seq<char>| t.len() > 0).push(this)
            } else {
                pre.filter(|t: Seq<char>| t.len() > 0)
            });
            if this.len() > 0 {
                assert(cleaned@.map_values(|s: String| s@) =~= pre_out.push(this));
            }
            assert(cleaned@.map_values(|s: String| s@) =~= tags.take((i + 1) as int).map_values(
                |t: Seq<char>| trimmed(t),
            ).filter(|t: Seq<char>| t.len() > 0));
        }
        i = i + 1;
    }
    proof {
        assert(tags.take(n as int) =~= tags);
    }
    // sort, dropping duplicate values
    let ghost pool = cleaned@.map_values(|s: String| s@);
    let m = cleaned.len();
    let mut out: Vec<String> = Vec::new();
    let mut k: usize = 0;
    proof {
        assert(out@.map_values(|s: String| s@) =~= sorted_unique(pool.take(0)));
    }
    while k < m
        invariant
            k <= m,
            m == cleaned@.len(),
            pool == cleaned@.map_values(|s: String| s@),
            out@.map_values(|s: String| s@) == sorted_unique(pool.take(k as int)),
        decreases m - k,
    {
        let candidate = cleaned[k].clone();
        proof {
            assert(pool.take((k + 1) as int) =~= pool.take(k as int).push(pool[k as int]));
            assert(pool.take((k + 1) as int).drop_last() =~= pool.take(k as int));
            assert(candidate@ == pool[k as int]);
        }
        insert_sorted_x(&mut out, candidate);
        k = k + 1;
    }
    proof {
        assert(pool.take(m as int) =~= pool);
    }
    out
}

/// The sample rates of the frames, in order.
pub open spec fn rates_of(frames: Seq<(u32, u8)>) -> Seq<u32> {
    frames.map_values(|p: (u32, u8)| p.0)
}

/// The per-frame channel counts, widened for counting.
pub open spec fn channels_of(frames: Seq<(u32, u8)>) -> Seq<u32> {
    frames.map_values(|p: (u32, u8)| p.1 as u32)
}

impl Metadata {
    /// Computes a file's metadata from its decoded frames — `(sample rate,
    /// channel count)` per frame — and its text tags, character-set-repaired
    /// by the caller where needed: majority votes over the frames, and the
    /// trimmed tags, sorted and duplicate-free. The repair itself depends on
    /// more than the characters, so it cannot stand behind a contract here.
    pub fn compute(
        frames: &Vec<(u32, u8)>,
        duration_ms: u32,
        updated_at_ms: u64,
        tags: &Vec<String>,
    ) -> (r: Metadata)
        requires
            frames@.len() > 0,
        ensures
            r@.duration_ms == duration_ms,
            r@.updated_at_ms == updated_at_ms,
            rates_of(frames@).contains(r@.sample_rate_hz),
            forall|x: u32|
                #[trigger] count_val(rates_of(frames@), x) <= count_val(
                    rates_of(frames@),
                    r@.sample_rate_hz,
                ),
            channels_of(frames@).contains(r@.channel_count as u32),
            forall|x: u32|
                #[trigger] count_val(channels_of(frames@), x) <= count_val(
                    channels_of(frames@),
                    r@.channel_count as u32,
                ),
            r@.references == references_of(tags@.map_values(|s: String| s@)),
    {
        let n = frames.len();
        let mut rates: Vec<u32> = Vec::new();
        let mut channels: Vec<u32> = Vec::new();
        let mut i: usize = 0;
        while i < n
            invariant
                i <= n,
                n == frames@.len(),
                rates@ =~= rates_of(frames@).take(i as int),
                channels@ =~= channels_of(frames@).take(i as int),
            decreases n - i,
        {
            rates.push(frames[i].0);
            channels.push(frames[i].1 as u32);
            proof {
                assert(rates@ =~= rates_of(frames@).take((i + 1) as int));
                assert(channels@ =~= channels_of(frames@).take((i + 1) as int));
            }
            i = i + 1;
        }
        proof {
            assert(rates_of(frames@).take(n as int) =~= rates_of(frames@));
            assert(channels_of(frames@).take(n as int) =~= channels_of(frames@));
        }
        let sample_rate_hz = most_common(&rates);
        let channel_vote = most_common(&channels);
        proof {
            let k = choose|k: int|
                0 <= k < channels@.len() && channels@[k] == channel_vote;
            assert(channels@[k] == frames@[k].1 as u32);
        }
        let channel_count = channel_vote as u8;
        let references = compute_references(tags);
        let r = Metadata { sample_rate_hz, channel_count, duration_ms, updated_at_ms, references };
        proof {
            assert(r@.references =~= references@.map_values(|s: String| s@));
        }
        r
    }
}

// ---------------------------------------------------------------------------
// Live synchronisation
// ---------------------------------------------------------------------------

/// The kinds of filesystem change a watch reports about a path.
#[derive(Debug, PartialEq, Eq, Clone, Copy, Structural)]
pub enum WatchEventKind {
    /// A file appeared or its data changed.
    Created,
    DataModified,
    /// A file disappeared.
    Removed,
    /// A rename reported as its old path.
    RenamedFrom,
    /// A rename reported as its new path.
    RenamedTo,
    /// A rename reported with both paths.
    RenamedBoth,
    /// A rename reported without direction.
    RenamedOther,
    /// Anything else.
    Other,
}

/// What a watch event asks of the catalog.
#[derive(Debug, PartialEq, Eq, Clone, Copy, Structural)]
pub enum WatchAction {
    /// Insert the freshly checked file.
    Add,
    /// Remove the entry named by the path's stem.
    Remove,
    /// Remove the old path's stem, then insert the checked file of the new
    /// path.
    RemoveThenAdd,
    /// Leave the catalog alone.
    Ignore,
}

/// How one watch event maps to catalog work. `loaded_ok` says whether the
/// affected file could be read and checked as sound data; a file that
/// cannot is never added, and a directionless rename falls back to removal.
pub open spec fn watch_action_spec(kind: WatchEventKind, loaded_ok: bool) -> WatchAction {
    match kind {
        WatchEventKind::Created | WatchEventKind::DataModified => if loaded_ok {
            WatchAction::Add
        } else {
            WatchAction::Ignore
        },
        WatchEventKind::Removed | WatchEventKind::RenamedFrom => WatchAction::Remove,
        WatchEventKind::RenamedTo => if loaded_ok {
            WatchAction::Add
        } else {
            WatchAction::Ignore
        },
        WatchEventKind::RenamedBoth => if loaded_ok {
            WatchAction::RemoveThenAdd
        } else {
            WatchAction::Remove
        },
        WatchEventKind::RenamedOther => if loaded_ok {
            WatchAction::Add
        } else {
            WatchAction::Remove
        },
        WatchEventKind::Other => WatchAction::Ignore,
    }
}

/// The decision of the live-sync loop; its caller performs the returned
/// catalog work and goes back to waiting for events.
pub fn watch_action(kind: WatchEventKind, loaded_ok: bool) -> (r: WatchAction)
    ensures
        r == watch_action_spec(kind, loaded_ok),
{
    match kind {
        WatchEventKind::Created | WatchEventKind::DataModified => {
            if loaded_ok {
                WatchAction::Add
            } else {
                WatchAction::Ignore
            }
        },
        WatchEventKind::Removed | WatchEventKind::RenamedFrom => WatchAction::Remove,
        WatchEventKind::RenamedTo => {
            if loaded_ok {
                WatchAction::Add
            } else {
                WatchAction::Ignore
            }
        },
        WatchEventKind::RenamedBoth => {
            if loaded_ok {
                WatchAction::RemoveThenAdd
            } else {
                WatchAction::Remove
            }
        },
        WatchEventKind::RenamedOther => {
            if loaded_ok {
                WatchAction::Add
            } else {
                WatchAction::Remove
            }
        },
        WatchEventKind::Other => WatchAction::Ignore,
    }
}

} // verus!
