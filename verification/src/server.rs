//! The decisions of the resource server: which route a request takes, how
//! each route changes the store and the playback state, what a listing
//! reports, which resources can be exported and how a WAV header is laid
//! out. Reading requests, decoding and encoding sample values, and writing
//! responses are the caller's.

use vstd::prelude::*;
use vstd::layout::size_of;
use vstd::utf8::encode_utf8;

use crate::resource::{
    distinct_ids, entries_map, kind_name, lemma_entries_map, matches_prefix, names_of,
    normalize_audio_resource_name, normalized_name, AudioBuffer, Entry, Resource,
    ResourceManager,
};
use crate::text::{str_eq, split_at_sep, split_chars, string_from_chars, trim, trim_bounds};

verus! {

// ---------------------------------------------------------------------------
// Routes
// ---------------------------------------------------------------------------

/// What a request asks for.
#[derive(Clone, Copy, Debug, PartialEq, Eq, Structural)]
pub enum Route {
    /// A CORS preflight (`OPTIONS`, any path).
    Preflight,
    /// `GET /health`.
    Health,
    /// `GET /api/resources`: the listing as JSON.
    List,
    /// `GET /api/resources.bin`: the listing in binary form.
    ListBinary,
    /// `GET /api/resources/export.wav`.
    ExportWav,
    /// `GET /api/resources/metadata`.
    Metadata,
    /// `POST /api/resources/load`.
    Load,
    /// `POST /api/resources/play`.
    Play,
    /// `POST /api/resources/stop`.
    Stop,
    /// `GET /api/resources/active`.
    Active,
    /// `POST /api/resources/delete`.
    Delete,
    /// `POST /api/resources/rename`.
    Rename,
    /// `POST /api/resources/prune`.
    Prune,
    /// Anything else.
    NotFound,
}

/// The route of a request with method `method` for the path `path`.
pub open spec fn route_of(method: Seq<char>, path: Seq<char>) -> Route {
    if method == "OPTIONS"@ {
        Route::Preflight
    } else if method == "GET"@ && path == "/health"@ {
        Route::Health
    } else if method == "GET"@ && path == "/api/resources"@ {
        Route::List
    } else if method == "GET"@ && path == "/api/resources.bin"@ {
        Route::ListBinary
    } else if method == "GET"@ && path == "/api/resources/export.wav"@ {
        Route::ExportWav
    } else if method == "GET"@ && path == "/api/resources/metadata"@ {
        Route::Metadata
    } else if method == "POST"@ && path == "/api/resources/load"@ {
        Route::Load
    } else if method == "POST"@ && path == "/api/resources/play"@ {
        Route::Play
    } else if method == "POST"@ && path == "/api/resources/stop"@ {
        Route::Stop
    } else if method == "GET"@ && path == "/api/resources/active"@ {
        Route::Active
    } else if method == "POST"@ && path == "/api/resources/delete"@ {
        Route::Delete
    } else if method == "POST"@ && path == "/api/resources/rename"@ {
        Route::Rename
    } else if method == "POST"@ && path == "/api/resources/prune"@ {
        Route::Prune
    } else {
        Route::NotFound
    }
}

/// The route of a request with method `method` for the path `path`.
pub fn route(method: &str, path: &str) -> (r: Route)
    ensures
        r == route_of(method@, path@),
{
    if str_eq(method, "OPTIONS") {
        Route::Preflight
    } else if str_eq(method, "GET") && str_eq(path, "/health") {
        Route::Health
    } else if str_eq(method, "GET") && str_eq(path, "/api/resources") {
        Route::List
    } else if str_eq(method, "GET") && str_eq(path, "/api/resources.bin") {
        Route::ListBinary
    } else if str_eq(method, "GET") && str_eq(path, "/api/resources/export.wav") {
        Route::ExportWav
    } else if str_eq(method, "GET") && str_eq(path, "/api/resources/metadata") {
        Route::Metadata
    } else if str_eq(method, "POST") && str_eq(path, "/api/resources/load") {
        Route::Load
    } else if str_eq(method, "POST") && str_eq(path, "/api/resources/play") {
        Route::Play
    } else if str_eq(method, "POST") && str_eq(path, "/api/resources/stop") {
        Route::Stop
    } else if str_eq(method, "GET") && str_eq(path, "/api/resources/active") {
        Route::Active
    } else if str_eq(method, "POST") && str_eq(path, "/api/resources/delete") {
        Route::Delete
    } else if str_eq(method, "POST") && str_eq(path, "/api/resources/rename") {
        Route::Rename
    } else if str_eq(method, "POST") && str_eq(path, "/api/resources/prune") {
        Route::Prune
    } else {
        Route::NotFound
    }
}

// ---------------------------------------------------------------------------
// Server state
// ---------------------------------------------------------------------------

/// The texts of an optional string.
pub open spec fn opt_view(o: Option<String>) -> Option<Seq<char>> {
    match o {
        Some(s) => Some(s@),
        None => None,
    }
}

/// The resource name a request's name parameter designates: the name
/// derived from it, or the empty name where the request has none.
pub open spec fn name_param(name: Option<Seq<char>>) -> Seq<char> {
    match name {
        Some(n) => normalized_name(n),
        None => Seq::empty(),
    }
}

/// The text of an optional parameter, empty where it is missing.
pub open spec fn raw_param(p: Option<Seq<char>>) -> Seq<char> {
    match p {
        Some(v) => v,
        None => Seq::empty(),
    }
}

/// The resource name a request's name parameter designates.
pub fn named(name: &Option<String>) -> (r: String)
    ensures
        r@ == name_param(opt_view(*name)),
{
    match name {
        Some(n) => normalize_audio_resource_name(n.as_str()),
        None => String::new(),
    }
}

fn raw(p: Option<String>) -> (r: String)
    ensures
        r@ == raw_param(opt_view(p)),
{
    match p {
        Some(v) => v,
        None => String::new(),
    }
}

/// Which resource plays, if any.
pub struct PlaybackState {
    pub active: Option<String>,
}

/// The server's state: the store, and what plays.
pub struct AppState<S, W, A> {
    pub resources: ResourceManager<S, W, A>,
    pub playback: PlaybackState,
}

impl Default for PlaybackState {
    fn default() -> (r: Self)
        ensures
            r.active is None,
    {
        PlaybackState { active: None }
    }
}

/// Whether `r` is an audio resource.
pub open spec fn is_audio<S, W, A>(r: Resource<S, W, A>) -> bool {
    r is Audio
}

/// The names a `keep` parameter lists: its `,`-separated pieces that hold
/// more than white space, each trimmed and turned into a resource name.
pub open spec fn keep_names(pieces: Seq<Seq<char>>) -> Seq<Seq<char>>
    decreases pieces.len(),
{
    if pieces.len() == 0 {
        Seq::empty()
    } else {
        let p = keep_names(pieces.drop_last());
        let t = trim(pieces.last());
        if t.len() == 0 {
            p
        } else {
            p.push(normalized_name(t))
        }
    }
}

/// The resource names the `keep` parameter of a prune request lists.
pub fn parse_keep_list(keep: &str) -> (r: Vec<String>)
    ensures
        names_of(r@) == keep_names(split_at_sep(keep@, ',')),
{
    let cs = crate::text::str_chars(keep);
    let pieces = split_chars(&cs, ',');
    let ghost views = pieces.deep_view();
    let mut out: Vec<String> = Vec::new();
    let mut k: usize = 0;
    assert(views.take(0) =~= Seq::<Seq<char>>::empty());
    assert(names_of(out@) =~= Seq::<Seq<char>>::empty());
    while k < pieces.len()
        invariant
            k <= pieces@.len(),
            views == pieces.deep_view(),
            views == split_at_sep(cs@, ','),
            names_of(out@) == keep_names(views.take(k as int)),
        decreases pieces@.len() - k,
    {
        assert(pieces@[k as int].deep_view() =~= pieces@[k as int]@);
        assert(views[k as int] == pieces@[k as int].deep_view());
        assert(views.take(k + 1).last() == views[k as int]);
        assert(views.take(k + 1).drop_last() =~= views.take(k as int));
        let (a, b) = trim_bounds(&pieces[k]);
        if a < b {
            let trimmed = string_from_chars(&pieces[k], a, b);
            let name = normalize_audio_resource_name(trimmed.as_str());
            let ghost before = out@;
            out.push(name);
            assert(names_of(out@) =~= names_of(before).push(name@));
        }
        k = k + 1;
    }
    assert(views.take(pieces@.len() as int) =~= views);
    out
}

/// What `names` holds of `name`.
fn contains_name(names: &Vec<String>, name: &String) -> (r: bool)
    ensures
        r == names_of(names@).contains(name@),
{
    let ghost views = names_of(names@);
    let mut i: usize = 0;
    while i < names.len()
        invariant
            i <= names@.len(),
            views == names_of(names@),
            forall|j: int| 0 <= j < i ==> views[j] != name@,
        decreases names@.len() - i,
    {
        assert(views[i as int] == names@[i as int]@);
        if names[i] == *name {
            assert(views[i as int] == name@);
            return true;
        }
        i = i + 1;
    }
    false
}

impl<S, W, A> AppState<S, W, A> {
    /// The state is consistent: the store holds no identifier twice.
    pub open spec fn wf(&self) -> bool {
        self.resources.wf()
    }

    /// An empty store, and nothing playing.
    pub fn new() -> (r: Self)
        ensures
            r.wf(),
            r.resources@ == Map::<Seq<char>, Resource<S, W, A>>::empty(),
            r.playback.active is None,
    {
        AppState { resources: ResourceManager::new(), playback: PlaybackState { active: None } }
    }

    /// Loads decoded audio under the name derived from `name` (or from
    /// `"resource"`), first taking out that resource and its separate
    /// channels.
    pub fn load(&mut self, name: Option<String>, buffer: AudioBuffer<S>)
        requires
            old(self).wf(),
        ensures
            final(self).wf(),
            final(self).playback.active == old(self).playback.active,
            ({
                let base = normalized_name(
                    match opt_view(name) {
                        Some(n) => n,
                        None => "resource"@,
                    },
                );
                final(self).resources@ == old(self).resources@.restrict(
                    Set::new(|k: Seq<char>| !matches_prefix(k, base)),
                ).insert(base, Resource::Audio(buffer))
            }),
    {
        let name = match name {
            Some(n) => n,
            None => String::from_str("resource"),
        };
        let base = normalize_audio_resource_name(name.as_str());
        let _ = self.resources.remove_matching_prefix(base.as_str());
        let _ = self.resources.insert(base.as_str(), Resource::audio(buffer));
    }

    /// Starts playing the resource `name` designates, where it is audio;
    /// answers whether it did. A refused request changes nothing.
    pub fn play(&mut self, name: Option<String>) -> (r: bool)
        requires
            old(self).wf(),
        ensures
            final(self).wf(),
            final(self).resources@ == old(self).resources@,
            ({
                let n = name_param(opt_view(name));
                &&& r == (old(self).resources@.contains_key(n) && is_audio(
                    old(self).resources@[n],
                ))
                &&& r ==> opt_view(final(self).playback.active) == Some(n)
                &&& !r ==> final(self).playback.active == old(self).playback.active
            }),
    {
        let n = named(&name);
        let playable = match self.resources.get(n.as_str()) {
            Some(resource) => resource.as_audio().is_some(),
            None => false,
        };
        if !playable {
            return false;
        }
        self.playback.active = Some(n);
        true
    }

    /// Stops playback.
    pub fn stop(&mut self)
        ensures
            final(self).resources == old(self).resources,
            final(self).playback.active is None,
    {
        self.playback.active = None;
    }

    /// Deletes the resource `name` designates, as `ResourceManager::remove`
    /// does; playback of that name stops whether or not it existed.
    pub fn delete(&mut self, name: Option<String>) -> (r: Result<Resource<S, W, A>, String>)
        requires
            old(self).wf(),
        ensures
            final(self).wf(),
            ({
                let n = name_param(opt_view(name));
                &&& match r {
                    Ok(v) => old(self).resources@.contains_key(n) && v == old(
                        self,
                    ).resources@[n] && final(self).resources@ == old(self).resources@.remove(n),
                    Err(e) => !old(self).resources@.contains_key(n) && e@
                        == crate::resource::missing_message(n) && final(self).resources@ == old(
                        self,
                    ).resources@,
                }
                &&& opt_view(final(self).playback.active) == if opt_view(
                    old(self).playback.active,
                ) == Some(n) {
                    None
                } else {
                    opt_view(old(self).playback.active)
                }
            }),
    {
        let n = named(&name);
        let removed = self.resources.remove(n.as_str());
        let stop = match &self.playback.active {
            Some(active) => *active == n,
            None => false,
        };
        if stop {
            self.playback.active = None;
        }
        removed
    }
}

impl<S, W, A> AppState<S, W, A> {
    /// Renames `from` to `to` (both taken as given, empty where missing), as
    /// `ResourceManager::rename` does; what played under `from` plays under
    /// `to` afterwards, whether or not the rename went through.
    pub fn rename(&mut self, from: Option<String>, to: Option<String>) -> (r: Result<(), String>)
        requires
            old(self).wf(),
        ensures
            final(self).wf(),
            ({
                let f = raw_param(opt_view(from));
                let t = raw_param(opt_view(to));
                let before = old(self).resources@;
                &&& match r {
                    Ok(()) => {
                        &&& !before.contains_key(t)
                        &&& before.contains_key(f)
                        &&& final(self).resources@ == before.remove(f).insert(t, before[f])
                    },
                    Err(e) => final(self).resources@ == before && if before.contains_key(t) {
                        e@ == crate::resource::exists_message(t)
                    } else {
                        !before.contains_key(f) && e@ == crate::resource::missing_message(f)
                    },
                }
                &&& opt_view(final(self).playback.active) == if opt_view(
                    old(self).playback.active,
                ) == Some(f) {
                    Some(t)
                } else {
                    opt_view(old(self).playback.active)
                }
            }),
    {
        let from = raw(from);
        let to = raw(to);
        let result = self.resources.rename(from.as_str(), to.as_str());
        let follow = match &self.playback.active {
            Some(active) => *active == from,
            None => false,
        };
        if follow {
            self.playback.active = Some(to);
        }
        result
    }

    /// Keeps only the resources the `keep` parameter lists (see
    /// `parse_keep_list`), stops playback of anything else, and answers how
    /// many resources went.
    pub fn prune(&mut self, keep: Option<String>) -> (r: usize)
        requires
            old(self).wf(),
        ensures
            final(self).wf(),
            ({
                let names = keep_names(split_at_sep(raw_param(opt_view(keep)), ','));
                let before = old(self).resources@;
                &&& final(self).resources@ == before.restrict(
                    Set::new(|k: Seq<char>| names.contains(k)),
                )
                &&& r == before.restrict(Set::new(|k: Seq<char>| !names.contains(k))).len()
                &&& opt_view(final(self).playback.active) == match opt_view(
                    old(self).playback.active,
                ) {
                    Some(a) => if names.contains(a) {
                        Some(a)
                    } else {
                        None
                    },
                    None => None,
                }
            }),
    {
        let keep = raw(keep);
        let list = parse_keep_list(keep.as_str());
        let mut kept: Vec<String> = Vec::new();
        let mut i: usize = 0;
        while i < list.len()
            invariant
                i <= list@.len(),
                kept@ == list@.take(i as int),
            decreases list@.len() - i,
        {
            kept.push(list[i].clone());
            assert(list@.take(i + 1) =~= list@.take(i as int).push(list@[i as int]));
            i = i + 1;
        }
        assert(list@.take(list@.len() as int) =~= list@);
        let pruned = self.resources.prune_except(kept);
        proof {
            lemma_entries_map(pruned@);
        }
        let stop = match &self.playback.active {
            Some(active) => !contains_name(&list, active),
            None => false,
        };
        if stop {
            self.playback.active = None;
        }
        pruned.len()
    }

    /// A copy of the resource `name` designates.
    pub fn lookup(&self, name: Option<String>) -> (r: Option<Resource<S, W, A>>)
        requires
            self.wf(),
        ensures
            ({
                let n = name_param(opt_view(name));
                match r {
                    Some(v) => self.resources@.contains_key(n) && v == self.resources@[n],
                    None => !self.resources@.contains_key(n),
                }
            }),
    {
        let n = named(&name);
        self.resources.get_cloned(n.as_str())
    }
}

impl<S, W, A> Default for AppState<S, W, A> {
    fn default() -> (r: Self)
        ensures
            r.wf(),
            r.resources@ == Map::<Seq<char>, Resource<S, W, A>>::empty(),
            r.playback.active is None,
    {
        AppState::new()
    }
}

// ---------------------------------------------------------------------------
// Listing
// ---------------------------------------------------------------------------

/// `std::mem::size_of_val` of a slice: its length times the size of its
/// element type.
#[verifier::external_body]
fn slice_byte_size<T>(s: &[T]) -> (n: usize)
    ensures
        n as nat == s@.len() * size_of::<T>(),
{
    std::mem::size_of_val(s)
}

/// How many bytes a resource's data takes: its samples times their size,
/// its bytes, the UTF-8 length of its text, or nothing for an opaque value.
pub open spec fn byte_len<S, W, A>(r: Resource<S, W, A>) -> int {
    match r {
        Resource::Audio(b) => (b.samples@.len() * size_of::<S>()) as int,
        Resource::F32(v) => (v@.len() * size_of::<S>()) as int,
        Resource::F64(v) => (v@.len() * size_of::<W>()) as int,
        Resource::Bytes(v) => v@.len() as int,
        Resource::Text(t) => (encode_utf8(t@).len() as usize) as int,
        Resource::Any(_) => 0,
    }
}

/// How many bytes a resource's data takes (see `byte_len`).
pub fn resource_bytes<S, W, A>(resource: &Resource<S, W, A>) -> (r: usize)
    ensures
        r as int == byte_len(*resource),
{
    match resource {
        Resource::Audio(buffer) => slice_byte_size(buffer.samples.as_slice()),
        Resource::F32(data) => slice_byte_size(data.as_slice()),
        Resource::F64(data) => slice_byte_size(data.as_slice()),
        Resource::Bytes(data) => data.len(),
        Resource::Text(data) => data.as_str().len(),
        Resource::Any(_) => 0,
    }
}

/// One line of a listing.
pub struct ResourceEntry {
    pub id: String,
    pub kind: String,
    pub bytes: usize,
}

/// A listing: what plays, and every resource.
pub struct ResourceSnapshot {
    pub active: Option<String>,
    pub resources: Vec<ResourceEntry>,
}

/// `e` describes the resource the map `m` holds under `e.id`.
pub open spec fn describes<S, W, A>(e: ResourceEntry, m: Map<Seq<char>, Resource<S, W, A>>) -> bool {
    &&& m.contains_key(e.id@)
    &&& e.kind@ == kind_name(m[e.id@])
    &&& e.bytes as int == byte_len(m[e.id@])
}

impl<S, W, A> AppState<S, W, A> {
    /// The listing: what plays, and one line per resource, in no particular
    /// order.
    pub fn snapshot_json(&self) -> (r: ResourceSnapshot)
        requires
            self.wf(),
        ensures
            opt_view(r.active) == opt_view(self.playback.active),
            r.resources@.len() == self.resources@.len(),
            forall|i: int|
                0 <= i < r.resources@.len() ==> describes(
                    #[trigger] r.resources@[i],
                    self.resources@,
                ),
            forall|i: int, j: int|
                0 <= i < r.resources@.len() && 0 <= j < r.resources@.len() && i != j
                    ==> (#[trigger] r.resources@[i]).id@ != (#[trigger] r.resources@[j]).id@,
    {
        let entries = self.resources.snapshot();
        proof {
            lemma_entries_map(entries@);
        }
        let mut lines: Vec<ResourceEntry> = Vec::new();
        let mut i: usize = 0;
        while i < entries.len()
            invariant
                i <= entries@.len(),
                distinct_ids(entries@),
                entries_map(entries@) == self.resources@,
                lines@.len() == i,
                forall|j: int|
                    0 <= j < i ==> (#[trigger] lines@[j]).id@ == entries@[j].0@ && describes(
                        lines@[j],
                        self.resources@,
                    ),
            decreases entries@.len() - i,
        {
            let id = String::from_str(entries[i].0.as_str());
            let kind = String::from_str(entries[i].1.kind());
            let bytes = resource_bytes(&entries[i].1);
            proof {
                lemma_entries_map(entries@);
                assert(entries_map(entries@)[entries@[i as int].0@] == entries@[i as int].1);
            }
            lines.push(ResourceEntry { id, kind, bytes });
            i = i + 1;
        }
        let active = match &self.playback.active {
            Some(a) => Some(a.clone()),
            None => None,
        };
        ResourceSnapshot { active, resources: lines }
    }
}

// ---------------------------------------------------------------------------
// Export and metadata
// ---------------------------------------------------------------------------

/// The sample rate given to plain samples exported as WAV.
pub const DEFAULT_SAMPLE_RATE: u32 = 44_100;

/// What a WAV export of `resource` is made of: samples, sample rate and
/// channel count; audio exports as it is, plain samples as one channel at
/// `DEFAULT_SAMPLE_RATE`, anything else not at all.
pub fn export_source<S, W, A>(resource: &Resource<S, W, A>) -> (r: Option<(&Vec<S>, u32, u16)>)
    ensures
        match *resource {
            Resource::Audio(b) => r matches Some((v, rate, ch)) && v@ == b.samples@ && rate
                == b.sample_rate && ch == b.channels,
            Resource::F32(samples) => r matches Some((v, rate, ch)) && v@ == samples@ && rate
                == DEFAULT_SAMPLE_RATE && ch == 1,
            _ => r is None,
        },
{
    match resource {
        Resource::Audio(buffer) => Some((&*buffer.samples, buffer.sample_rate, buffer.channels)),
        Resource::F32(samples) => Some((&**samples, DEFAULT_SAMPLE_RATE, 1)),
        _ => None,
    }
}

/// The frame count, sample rate and channel count of an audio resource,
/// which its metadata reports; `None` for anything else.
pub fn audio_metadata<S, W, A>(resource: &Resource<S, W, A>) -> (r: Option<(usize, u32, u16)>)
    requires
        resource matches Resource::Audio(b) ==> b.channels > 0,
    ensures
        match *resource {
            Resource::Audio(b) => r == Some(
                (
                    (b.samples@.len() / (b.channels as nat)) as usize,
                    b.sample_rate,
                    b.channels,
                ),
            ),
            _ => r is None,
        },
{
    match resource {
        Resource::Audio(buffer) => Some((buffer.frames(), buffer.sample_rate, buffer.channels)),
        _ => None,
    }
}

// ---------------------------------------------------------------------------
// WAV header
// ---------------------------------------------------------------------------

/// `x` as two little-endian bytes.
pub open spec fn le16(x: nat) -> Seq<u8> {
    seq![(x % 256) as u8, ((x / 256) % 256) as u8]
}

/// `x` as four little-endian bytes.
pub open spec fn le32(x: nat) -> Seq<u8> {
    seq![
        (x % 256) as u8,
        ((x / 256) % 256) as u8,
        ((x / 65536) % 256) as u8,
        ((x / 16777216) % 256) as u8,
    ]
}

/// The ASCII bytes `RIFF`.
pub open spec fn riff_tag() -> Seq<u8> {
    seq![0x52u8, 0x49u8, 0x46u8, 0x46u8]
}

/// The ASCII bytes `WAVEfmt ` (with the trailing space).
pub open spec fn wave_fmt_tag() -> Seq<u8> {
    seq![0x57u8, 0x41u8, 0x56u8, 0x45u8, 0x66u8, 0x6du8, 0x74u8, 0x20u8]
}

/// The ASCII bytes `data`.
pub open spec fn data_tag() -> Seq<u8> {
    seq![0x64u8, 0x61u8, 0x74u8, 0x61u8]
}

/// The size of the sample data of a 16-bit WAV file with `sample_count`
/// samples, as its 32-bit header fields hold it (taken modulo 2^32).
pub open spec fn wav_data_len(sample_count: nat) -> nat {
    ((sample_count * 2) as u32) as nat
}

/// The 44-byte header of a 16-bit PCM WAV file holding `sample_count`
/// interleaved samples over `channels` channels at `sample_rate` frames a
/// second.
pub open spec fn wav_header_bytes(sample_count: nat, sample_rate: nat, channels: nat) -> Seq<u8> {
    let data_len = wav_data_len(sample_count);
    riff_tag() + le32(36 + data_len) + wave_fmt_tag() + le32(16) + le16(1) + le16(channels) + le32(
        sample_rate,
    ) + le32(sample_rate * channels * 2) + le16(channels * 2) + le16(16) + data_tag() + le32(
        data_len,
    )
}

/// The header fields of a WAV file fit their widths: the sample data and
/// the byte rate in 32 bits, the block size in 16.
pub open spec fn wav_header_fits(sample_count: nat, sample_rate: nat, channels: nat) -> bool {
    &&& sample_count * 2 <= usize::MAX
    &&& 36 + wav_data_len(sample_count) <= u32::MAX
    &&& sample_rate * channels * 2 <= u32::MAX
    &&& channels * 2 <= u16::MAX
}

fn push_le16(out: &mut Vec<u8>, x: u16)
    ensures
        final(out)@ == old(out)@ + le16(x as nat),
{
    out.push((x % 256) as u8);
    out.push(((x / 256) % 256) as u8);
    assert(final(out)@ =~= old(out)@ + le16(x as nat));
}

fn push_le32(out: &mut Vec<u8>, x: u32)
    ensures
        final(out)@ == old(out)@ + le32(x as nat),
{
    out.push((x % 256) as u8);
    out.push(((x / 256) % 256) as u8);
    out.push(((x / 65536) % 256) as u8);
    out.push(((x / 16777216) % 256) as u8);
    assert(final(out)@ =~= old(out)@ + le32(x as nat));
}

fn push_tag(out: &mut Vec<u8>, tag: &[u8])
    ensures
        final(out)@ == old(out)@ + tag@,
{
    let mut i: usize = 0;
    while i < tag.len()
        invariant
            i <= tag@.len(),
            out@ == old(out)@ + tag@.take(i as int),
        decreases tag@.len() - i,
    {
        out.push(tag[i]);
        assert(tag@.take(i + 1) =~= tag@.take(i as int).push(tag@[i as int]));
        i = i + 1;
    }
    assert(tag@.take(tag@.len() as int) =~= tag@);
}

/// The header of a 16-bit PCM WAV file (see `wav_header_bytes`), for a
/// file whose header fields fit their widths.
pub fn wav_header(sample_count: usize, sample_rate: u32, channels: u16) -> (r: Vec<u8>)
    requires
        wav_header_fits(sample_count as nat, sample_rate as nat, channels as nat),
    ensures
        r@ == wav_header_bytes(sample_count as nat, sample_rate as nat, channels as nat),
{
    let data_bytes = sample_count * 2;
    let data_len = data_bytes as u32;
    let mut out: Vec<u8> = Vec::new();
    let riff: [u8; 4] = [0x52, 0x49, 0x46, 0x46];
    let wave_fmt: [u8; 8] = [0x57, 0x41, 0x56, 0x45, 0x66, 0x6d, 0x74, 0x20];
    let data: [u8; 4] = [0x64, 0x61, 0x74, 0x61];
    assert(riff@ =~= riff_tag());
    assert(wave_fmt@ =~= wave_fmt_tag());
    assert(data@ =~= data_tag());
    push_tag(&mut out, &riff);
    push_le32(&mut out, 36u32 + data_len);
    push_tag(&mut out, &wave_fmt);
    push_le32(&mut out, 16);
    push_le16(&mut out, 1);
    push_le16(&mut out, channels);
    push_le32(&mut out, sample_rate);
    push_le32(&mut out, sample_rate * (channels as u32) * 2);
    push_le16(&mut out, channels * 2);
    push_le16(&mut out, 16);
    push_tag(&mut out, &data);
    push_le32(&mut out, data_len);
    assert(out@ =~= wav_header_bytes(sample_count as nat, sample_rate as nat, channels as nat));
    out
}

} // verus!
