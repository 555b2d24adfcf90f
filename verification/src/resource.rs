//! Resources and their store: identifiers derived from file names,
//! interleaved audio buffers, the kinds of resource, and the manager that
//! owns them by identifier.
//!
//! Sample values are a type parameter (`S` for single precision, `W` for
//! double precision), and so is the payload of an opaque resource (`A`):
//! nothing here reads a sample's value, it only moves samples about.

use std::sync::Arc;
use vstd::prelude::*;
use vstd::utf8::encode_utf8;

use crate::text::{
    chars_eq, chars_start_with, decimal, push_decimal, str_chars, string_from_chars, trim,
    trim_bounds,
};

verus! {

// ---------------------------------------------------------------------------
// Resource identifiers and names
// ---------------------------------------------------------------------------

/// The identifier a resource is stored under.
#[derive(Debug, PartialEq, Eq, Hash)]
pub struct ResourceId(String);

impl View for ResourceId {
    type V = Seq<char>;

    closed spec fn view(&self) -> Seq<char> {
        self.0@
    }
}

impl ResourceId {
    /// The identifier with the text `id`.
    pub fn new(id: String) -> (r: Self)
        ensures
            r@ == id@,
    {
        ResourceId(id)
    }

    /// The text of the identifier.
    pub fn as_str(&self) -> (r: &str)
        ensures
            r@ == self@,
    {
        self.0.as_str()
    }
}

impl Clone for ResourceId {
    fn clone(&self) -> (r: Self)
        ensures
            r == *self,
    {
        ResourceId(self.0.clone())
    }
}

/// What `Path::file_stem` gives for the path `name`, read as text: the
/// last component's name without its final extension, or `None` where the
/// path has no file name (or the stem is not valid UTF-8). Paths are read
/// with the separators of the platform the library is built for.
pub uninterp spec fn path_file_stem(name: Seq<char>) -> Option<Seq<char>>;

/// `Path::file_stem` of `name`, as text. The contract says only that the
/// result is `path_file_stem` of the argument: how a path is cut into
/// components and extensions is the standard library's.
#[verifier::external_body]
fn file_stem_of(name: &str) -> (r: Option<&str>)
    ensures
        match r {
            Some(stem) => path_file_stem(name@) == Some(stem@),
            None => path_file_stem(name@) is None,
        },
{
    match std::path::Path::new(name).file_stem() {
        Some(stem) => stem.to_str(),
        None => None,
    }
}

/// The longest a resource name derived from a file name can be.
pub const MAX_NAME_CHARS: usize = 16;

/// The name a file name yields once its stem is known: the stem (or the
/// whole file name where it has none), trimmed of white space and cut to
/// `MAX_NAME_CHARS` characters; `"resource"` where nothing is left.
pub open spec fn name_from_stem(name: Seq<char>, stem: Option<Seq<char>>) -> Seq<char> {
    let base = match stem {
        Some(s) => s,
        None => name,
    };
    let t = trim(base);
    let kept = if t.len() <= MAX_NAME_CHARS {
        t
    } else {
        t.take(MAX_NAME_CHARS as int)
    };
    if kept.len() == 0 {
        "resource"@
    } else {
        kept
    }
}

/// Whatever the file name, the name derived from it is neither empty nor
/// longer than `MAX_NAME_CHARS` characters.
pub proof fn lemma_name_from_stem_bounds(name: Seq<char>, stem: Option<Seq<char>>)
    ensures
        0 < name_from_stem(name, stem).len() <= MAX_NAME_CHARS,
{
    reveal_strlit("resource");
}

/// The resource name derived from the file name `name`.
pub open spec fn normalized_name(name: Seq<char>) -> Seq<char> {
    name_from_stem(name, path_file_stem(name))
}

/// The resource name for `name` given its stem (see `name_from_stem`).
pub fn name_from_file_stem(name: &str, stem: Option<&str>) -> (r: String)
    ensures
        r@ == name_from_stem(
            name@,
            match stem {
                Some(s) => Some(s@),
                None => None,
            },
        ),
{
    let base = match stem {
        Some(s) => s,
        None => name,
    };
    let cs = str_chars(base);
    let (a, b) = trim_bounds(&cs);
    let end = if b - a > MAX_NAME_CHARS {
        a + MAX_NAME_CHARS
    } else {
        b
    };
    assert(cs@.subrange(a as int, end as int) =~= (if b - a <= MAX_NAME_CHARS {
        trim(cs@)
    } else {
        trim(cs@).take(MAX_NAME_CHARS as int)
    }));
    if a == end {
        String::from_str("resource")
    } else {
        string_from_chars(&cs, a, end)
    }
}

/// The resource name derived from the file name `name`: its stem, trimmed
/// and cut to `MAX_NAME_CHARS` characters, or `"resource"`.
pub fn normalize_audio_resource_name(name: &str) -> (r: String)
    ensures
        r@ == normalized_name(name@),
{
    let stem = file_stem_of(name);
    name_from_file_stem(name, stem)
}

/// The name under which channel `channel` (counted from 0) of the file
/// `name` is stored.
pub open spec fn channel_name(name: Seq<char>, channel: nat) -> Seq<char> {
    normalized_name(name) + "_ch"@ + decimal(channel + 1)
}

/// The resource name of channel `channel` (counted from 0) of the file
/// `name`: its normalized name, `_ch`, and the channel counted from 1.
pub fn channel_resource_name(name: &str, channel: usize) -> (r: String)
    requires
        channel < usize::MAX,
    ensures
        r@ == channel_name(name@, channel as nat),
{
    let mut r = normalize_audio_resource_name(name);
    r.append("_ch");
    push_decimal(channel + 1, &mut r);
    r
}

// ---------------------------------------------------------------------------
// Shared values
// ---------------------------------------------------------------------------

/// `Arc::clone`: another handle to the same shared value.
#[verifier::external_body]
fn share<T>(a: &Arc<T>) -> (r: Arc<T>)
    ensures
        r == *a,
{
    Arc::clone(a)
}

// ---------------------------------------------------------------------------
// Audio buffers
// ---------------------------------------------------------------------------

/// Interleaved audio: frame `f` of channel `c` is `samples[f * channels + c]`.
pub struct AudioBuffer<S> {
    pub samples: Arc<Vec<S>>,
    pub sample_rate: u32,
    pub channels: u16,
}

/// The message of `AudioBuffer::new` for a buffer without channels.
pub open spec fn no_channel_message() -> Seq<char> {
    "audio buffer must have at least one channel"@
}

/// The message of `AudioBuffer::new` for samples that do not fill whole
/// frames.
pub open spec fn misaligned_message() -> Seq<char> {
    "audio samples must align with the channel count"@
}

/// How many samples of channel `channel` interleaved samples of length
/// `len` with `channels` channels hold: one for each position `p < len`
/// with `p % channels == channel`, starting at `channel`.
pub open spec fn channel_len(len: nat, channels: nat, channel: nat) -> nat {
    if channel < len {
        ((len - channel - 1) as nat / channels) + 1
    } else {
        0
    }
}

/// The samples of channel `channel`: every `channels`-th sample, from
/// position `channel` on.
pub open spec fn channel_of<S>(samples: Seq<S>, channels: nat, channel: nat) -> Seq<S> {
    Seq::new(
        channel_len(samples.len(), channels, channel),
        |i: int| samples[channel + i * channels],
    )
}

proof fn lemma_mul_le_from_div(k: int, x: int, d: int)
    by (nonlinear_arith)
    requires
        d > 0,
        x >= 0,
        0 <= k <= x / d,
    ensures
        k * d <= x,
{
}

proof fn lemma_div_of_aligned(m: int, d: int, c: int)
    by (nonlinear_arith)
    requires
        d > 0,
        0 <= c < d,
        m >= 1,
    ensures
        (m * d - c - 1) / d == m - 1,
{
    assert((m - 1) * d <= m * d - c - 1 < m * d);
}

impl<S> AudioBuffer<S> {
    /// The buffer is consistent: it has channels, and its samples fill whole
    /// frames.
    pub open spec fn wf(&self) -> bool {
        &&& self.channels > 0
        &&& self.samples@.len() % (self.channels as nat) == 0
    }

    /// A buffer of `samples` interleaved over `channels` channels; refused
    /// where there are no channels or the samples do not fill whole frames.
    pub fn new(samples: Vec<S>, sample_rate: u32, channels: u16) -> (r: Result<Self, String>)
        ensures
            match r {
                Ok(b) => {
                    &&& channels > 0
                    &&& samples@.len() % (channels as nat) == 0
                    &&& b.wf()
                    &&& b.samples@ == samples@
                    &&& b.sample_rate == sample_rate
                    &&& b.channels == channels
                },
                Err(e) => if channels == 0 {
                    e@ == no_channel_message()
                } else {
                    samples@.len() % (channels as nat) != 0 && e@ == misaligned_message()
                },
            },
    {
        if channels == 0 {
            return Err(String::from_str("audio buffer must have at least one channel"));
        }
        if samples.len() % (channels as usize) != 0 {
            return Err(String::from_str("audio samples must align with the channel count"));
        }
        Ok(AudioBuffer { samples: Arc::new(samples), sample_rate, channels })
    }

    /// A buffer of one channel.
    pub fn mono(samples: Vec<S>, sample_rate: u32) -> (r: Self)
        ensures
            r.wf(),
            r.samples@ == samples@,
            r.sample_rate == sample_rate,
            r.channels == 1,
    {
        AudioBuffer { samples: Arc::new(samples), sample_rate, channels: 1 }
    }

    /// The number of frames: samples per channel.
    pub fn frames(&self) -> (r: usize)
        requires
            self.channels > 0,
        ensures
            r == self.samples@.len() / (self.channels as nat),
    {
        self.samples.len() / (self.channels as usize)
    }
}

impl<S: Copy> AudioBuffer<S> {
    /// The samples of channel `channel` (counted from 0), or `None` where
    /// the buffer has no such channel.
    pub fn channel_samples(&self, channel: usize) -> (r: Option<Vec<S>>)
        ensures
            match r {
                Some(v) => channel < self.channels && v@ == channel_of(
                    self.samples@,
                    self.channels as nat,
                    channel as nat,
                ),
                None => channel >= self.channels,
            },
    {
        let channels = self.channels as usize;
        if channel >= channels {
            return None;
        }
        let samples: &Vec<S> = &self.samples;
        let len = samples.len();
        if channels == 1 {
            let mut all: Vec<S> = Vec::new();
            let mut i: usize = 0;
            while i < len
                invariant
                    i <= len == samples@.len(),
                    all@ == samples@.take(i as int),
                decreases len - i,
            {
                all.push(samples[i]);
                assert(samples@.take(i + 1) =~= samples@.take(i as int).push(samples@[i as int]));
                i = i + 1;
            }
            assert(all@ =~= channel_of(samples@, 1, 0));
            return Some(all);
        }
        let count: usize = if channel < len {
            (len - channel - 1) / channels + 1
        } else {
            0
        };
        let mut out: Vec<S> = Vec::new();
        let mut k: usize = 0;
        while k < count
            invariant
                0 <= channel < channels,
                len == samples@.len(),
                count == channel_len(len as nat, channels as nat, channel as nat),
                k <= count,
                out@.len() == k,
                forall|i: int| 0 <= i < k ==> out@[i] == samples@[channel + i * channels],
            decreases count - k,
        {
            proof {
                lemma_mul_le_from_div(k as int, len - channel - 1, channels as int);
            }
            let idx = channel + k * channels;
            out.push(samples[idx]);
            k = k + 1;
        }
        assert(out@ =~= channel_of(samples@, channels as nat, channel as nat));
        Some(out)
    }

    /// One single-channel buffer per channel, in channel order, each with
    /// this buffer's sample rate.
    pub fn split_channels(&self) -> (r: Vec<Self>)
        ensures
            r@.len() == self.channels,
            forall|c: int|
                0 <= c < self.channels ==> {
                    &&& (#[trigger] r@[c]).wf()
                    &&& r@[c].samples@ == channel_of(self.samples@, self.channels as nat, c as nat)
                    &&& r@[c].sample_rate == self.sample_rate
                    &&& r@[c].channels == 1
                },
    {
        let mut out: Vec<Self> = Vec::new();
        let channels = self.channels as usize;
        let mut c: usize = 0;
        while c < channels
            invariant
                c <= channels == self.channels,
                out@.len() == c,
                forall|j: int|
                    0 <= j < c ==> {
                        &&& (#[trigger] out@[j]).wf()
                        &&& out@[j].samples@ == channel_of(
                            self.samples@,
                            self.channels as nat,
                            j as nat,
                        )
                        &&& out@[j].sample_rate == self.sample_rate
                        &&& out@[j].channels == 1
                    },
            decreases channels - c,
        {
            match self.channel_samples(c) {
                Some(samples) => out.push(Self::mono(samples, self.sample_rate)),
                None => {},
            }
            c = c + 1;
        }
        out
    }
}

/// Splitting a consistent buffer loses nothing: each channel holds one
/// sample per frame, and frame `f` of channel `c` is the interleaved
/// sample `f * channels + c`.
pub proof fn lemma_channel_of_aligned<S>(samples: Seq<S>, channels: nat, c: nat)
    requires
        channels > 0,
        samples.len() % channels == 0,
        c < channels,
    ensures
        channel_of(samples, channels, c).len() == samples.len() / channels,
        forall|f: int|
            0 <= f < samples.len() / channels ==> #[trigger] channel_of(samples, channels, c)[f]
                == samples[f * channels + c],
{
    let len = samples.len();
    let m = len / channels;
    assert(len == m * channels) by (nonlinear_arith)
        requires
            len % channels == 0,
            m == len / channels,
            channels > 0,
    ;
    if m >= 1 {
        lemma_div_of_aligned(m as int, channels as int, c as int);
        assert(c < len) by (nonlinear_arith)
            requires
                len == m * channels,
                m >= 1,
                c < channels,
        ;
    } else {
        assert(len == 0) by (nonlinear_arith)
            requires
                len == m * channels,
                m == 0,
        ;
    }
    assert forall|f: int| 0 <= f < m implies #[trigger] channel_of(samples, channels, c)[f]
        == samples[f * channels + c] by {
        assert(f * channels == channels * f) by (nonlinear_arith);
    }
}

impl<S> Clone for AudioBuffer<S> {
    fn clone(&self) -> (r: Self)
        ensures
            r == *self,
    {
        AudioBuffer {
            samples: share(&self.samples),
            sample_rate: self.sample_rate,
            channels: self.channels,
        }
    }
}

// ---------------------------------------------------------------------------
// Resources
// ---------------------------------------------------------------------------

/// A resource: audio, plain sample data of either precision, bytes, text,
/// or an opaque shared value.
pub enum Resource<S, W, A> {
    Audio(AudioBuffer<S>),
    F32(Arc<Vec<S>>),
    F64(Arc<Vec<W>>),
    Bytes(Arc<Vec<u8>>),
    Text(Arc<String>),
    Any(Arc<A>),
}

/// The name of a resource's kind, as `Resource::kind` gives it.
pub open spec fn kind_name<S, W, A>(r: Resource<S, W, A>) -> Seq<char> {
    match r {
        Resource::Audio(_) => "audio"@,
        Resource::F32(_) => "f32"@,
        Resource::F64(_) => "f64"@,
        Resource::Bytes(_) => "bytes"@,
        Resource::Text(_) => "text"@,
        Resource::Any(_) => "any"@,
    }
}

impl<S, W, A> Clone for Resource<S, W, A> {
    fn clone(&self) -> (r: Self)
        ensures
            r == *self,
    {
        match self {
            Resource::Audio(buffer) => Resource::Audio(buffer.clone()),
            Resource::F32(samples) => Resource::F32(share(samples)),
            Resource::F64(samples) => Resource::F64(share(samples)),
            Resource::Bytes(bytes) => Resource::Bytes(share(bytes)),
            Resource::Text(text) => Resource::Text(share(text)),
            Resource::Any(value) => Resource::Any(share(value)),
        }
    }
}

impl<S, W, A> Resource<S, W, A> {
    /// An audio resource.
    pub fn audio(buffer: AudioBuffer<S>) -> (r: Self)
        ensures
            r == Resource::<S, W, A>::Audio(buffer),
    {
        Resource::Audio(buffer)
    }

    /// A resource of raw bytes.
    pub fn bytes(data: Vec<u8>) -> (r: Self)
        ensures
            r matches Resource::Bytes(b) && b@ == data@,
    {
        Resource::Bytes(Arc::new(data))
    }

    /// The audio buffer, where this is an audio resource.
    pub fn as_audio(&self) -> (r: Option<&AudioBuffer<S>>)
        ensures
            match *self {
                Resource::Audio(buffer) => r == Some(&buffer),
                _ => r is None,
            },
    {
        match self {
            Resource::Audio(buffer) => Some(buffer),
            _ => None,
        }
    }

    /// The bytes, where this is a resource of bytes.
    pub fn as_bytes(&self) -> (r: Option<&[u8]>)
        ensures
            match *self {
                Resource::Bytes(bytes) => r matches Some(b) && b@ == bytes@,
                _ => r is None,
            },
    {
        match self {
            Resource::Bytes(bytes) => Some(bytes.as_slice()),
            _ => None,
        }
    }

    /// The name of the resource's kind: "audio", "f32", "f64", "bytes",
    /// "text" or "any".
    pub fn kind(&self) -> (r: &'static str)
        ensures
            r@ == kind_name(*self),
    {
        match self {
            Resource::Audio(_) => "audio",
            Resource::F32(_) => "f32",
            Resource::F64(_) => "f64",
            Resource::Bytes(_) => "bytes",
            Resource::Text(_) => "text",
            Resource::Any(_) => "any",
        }
    }
}

// ---------------------------------------------------------------------------
// The resource manager
// ---------------------------------------------------------------------------

/// An identifier and the resource stored under it.
pub type Entry<S, W, A> = (ResourceId, Resource<S, W, A>);

/// No two entries of `s` share an identifier.
pub open spec fn distinct_ids<S, W, A>(s: Seq<Entry<S, W, A>>) -> bool {
    forall|i: int, j: int|
        0 <= i < s.len() && 0 <= j < s.len() && i != j ==> #[trigger] s[i].0@ != #[trigger] s[j].0@
}

/// The map from identifier to resource that the entries `s` describe.
pub open spec fn entries_map<S, W, A>(s: Seq<Entry<S, W, A>>) -> Map<Seq<char>, Resource<S, W, A>>
    decreases s.len(),
{
    if s.len() == 0 {
        Map::empty()
    } else {
        entries_map(s.drop_last()).insert(s.last().0@, s.last().1)
    }
}

/// For entries without repeated identifiers, the map holds exactly their
/// identifiers, each with its resource, one key per entry.
pub proof fn lemma_entries_map<S, W, A>(s: Seq<Entry<S, W, A>>)
    requires
        distinct_ids(s),
    ensures
        forall|k: Seq<char>|
            #[trigger] entries_map(s).contains_key(k) <==> exists|i: int|
                0 <= i < s.len() && (#[trigger] s[i]).0@ == k,
        forall|i: int| 0 <= i < s.len() ==> entries_map(s)[(#[trigger] s[i]).0@] == s[i].1,
        entries_map(s).dom().finite(),
        entries_map(s).len() == s.len(),
    decreases s.len(),
{
    if s.len() > 0 {
        let p = s.drop_last();
        assert(distinct_ids(p));
        lemma_entries_map(p);
        let last = s.last();
        assert(s[s.len() - 1] == last);
        if entries_map(p).contains_key(last.0@) {
            let i = choose|i: int| 0 <= i < p.len() && (#[trigger] p[i]).0@ == last.0@;
            assert(s[i] == p[i]);
        }
        assert forall|k: Seq<char>|
            #[trigger] entries_map(s).contains_key(k) <==> exists|i: int|
                0 <= i < s.len() && (#[trigger] s[i]).0@ == k by {
            if entries_map(s).contains_key(k) && k != last.0@ {
                let i = choose|i: int| 0 <= i < p.len() && (#[trigger] p[i]).0@ == k;
                assert(s[i] == p[i]);
            }
            if exists|i: int| 0 <= i < s.len() && (#[trigger] s[i]).0@ == k {
                let i = choose|i: int| 0 <= i < s.len() && (#[trigger] s[i]).0@ == k;
                if i < s.len() - 1 {
                    assert(p[i] == s[i]);
                }
            }
        }
        assert forall|i: int| 0 <= i < s.len() implies entries_map(s)[(#[trigger] s[i]).0@]
            == s[i].1 by {
            if i < s.len() - 1 {
                assert(p[i] == s[i]);
            }
        }
    }
}

/// Appending an entry under a new identifier adds that key.
pub proof fn lemma_entries_push<S, W, A>(s: Seq<Entry<S, W, A>>, e: Entry<S, W, A>)
    requires
        distinct_ids(s),
        !entries_map(s).contains_key(e.0@),
    ensures
        distinct_ids(s.push(e)),
        entries_map(s.push(e)) == entries_map(s).insert(e.0@, e.1),
{
    lemma_entries_map(s);
    assert(s.push(e).drop_last() =~= s);
    assert forall|i: int, j: int|
        0 <= i < s.push(e).len() && 0 <= j < s.push(e).len() && i != j implies #[trigger] s.push(
        e,
    )[i].0@ != #[trigger] s.push(e)[j].0@ by {
        if i < s.len() && j < s.len() {
            assert(s.push(e)[i] == s[i] && s.push(e)[j] == s[j]);
        } else if i < s.len() {
            assert(s.push(e)[i] == s[i]);
            assert(entries_map(s).contains_key(s[i].0@));
        } else {
            assert(s.push(e)[j] == s[j]);
            assert(entries_map(s).contains_key(s[j].0@));
        }
    }
}

/// Replacing the entry at `i` by one with the same identifier replaces that
/// key's resource.
pub proof fn lemma_entries_update<S, W, A>(s: Seq<Entry<S, W, A>>, i: int, e: Entry<S, W, A>)
    requires
        distinct_ids(s),
        0 <= i < s.len(),
        e.0@ == s[i].0@,
    ensures
        distinct_ids(s.update(i, e)),
        entries_map(s.update(i, e)) == entries_map(s).insert(e.0@, e.1),
{
    let t = s.update(i, e);
    assert forall|a: int, b: int|
        0 <= a < t.len() && 0 <= b < t.len() && a != b implies #[trigger] t[a].0@
        != #[trigger] t[b].0@ by {
        assert(t[a].0@ == s[a].0@ && t[b].0@ == s[b].0@);
    }
    lemma_entries_map(s);
    lemma_entries_map(t);
    assert forall|k: Seq<char>| #[trigger]
        entries_map(t).contains_key(k) == entries_map(s).insert(e.0@, e.1).contains_key(k) by {
        if entries_map(t).contains_key(k) {
            let a = choose|a: int| 0 <= a < t.len() && (#[trigger] t[a]).0@ == k;
            assert(s[a].0@ == k);
        }
        if entries_map(s).contains_key(k) {
            let a = choose|a: int| 0 <= a < s.len() && (#[trigger] s[a]).0@ == k;
            assert(t[a].0@ == k);
        }
    }
    assert forall|k: Seq<char>| #[trigger] entries_map(t).contains_key(k) implies entries_map(t)[k]
        == entries_map(s).insert(e.0@, e.1)[k] by {
        let a = choose|a: int| 0 <= a < t.len() && (#[trigger] t[a]).0@ == k;
        assert(s[a].0@ == k);
    }
    assert(entries_map(t) =~= entries_map(s).insert(e.0@, e.1));
}

/// Taking out the entry at `i` takes out its key.
pub proof fn lemma_entries_remove<S, W, A>(s: Seq<Entry<S, W, A>>, i: int)
    requires
        distinct_ids(s),
        0 <= i < s.len(),
    ensures
        distinct_ids(s.remove(i)),
        entries_map(s.remove(i)) == entries_map(s).remove(s[i].0@),
{
    let t = s.remove(i);
    assert forall|a: int| 0 <= a < t.len() implies #[trigger] t[a] == s[if a < i {
        a
    } else {
        a + 1
    }] by {}
    assert forall|a: int, b: int|
        0 <= a < t.len() && 0 <= b < t.len() && a != b implies #[trigger] t[a].0@
        != #[trigger] t[b].0@ by {
        let sa = if a < i {
            a
        } else {
            a + 1
        };
        let sb = if b < i {
            b
        } else {
            b + 1
        };
        assert(t[a] == s[sa] && t[b] == s[sb]);
    }
    lemma_entries_map(s);
    lemma_entries_map(t);
    assert forall|k: Seq<char>| #[trigger]
        entries_map(t).contains_key(k) == entries_map(s).remove(s[i].0@).contains_key(k) by {
        if entries_map(t).contains_key(k) {
            let a = choose|a: int| 0 <= a < t.len() && (#[trigger] t[a]).0@ == k;
            let sa = if a < i {
                a
            } else {
                a + 1
            };
            assert(t[a] == s[sa]);
        }
        if entries_map(s).contains_key(k) && k != s[i].0@ {
            let a = choose|a: int| 0 <= a < s.len() && (#[trigger] s[a]).0@ == k;
            let ta = if a < i {
                a
            } else {
                a - 1
            };
            assert(t[ta] == s[a]);
        }
    }
    assert forall|k: Seq<char>| #[trigger] entries_map(t).contains_key(k) implies entries_map(t)[k]
        == entries_map(s).remove(s[i].0@)[k] by {
        let a = choose|a: int| 0 <= a < t.len() && (#[trigger] t[a]).0@ == k;
        let sa = if a < i {
            a
        } else {
            a + 1
        };
        assert(t[a] == s[sa]);
    }
    assert(entries_map(t) =~= entries_map(s).remove(s[i].0@));
}

/// Resources owned by identifier.
pub struct ResourceManager<S, W, A> {
    entries: Vec<Entry<S, W, A>>,
}

impl<S, W, A> View for ResourceManager<S, W, A> {
    type V = Map<Seq<char>, Resource<S, W, A>>;

    closed spec fn view(&self) -> Map<Seq<char>, Resource<S, W, A>> {
        entries_map(self.entries@)
    }
}

/// The message for an identifier that is already taken.
pub open spec fn exists_message(id: Seq<char>) -> Seq<char> {
    "resource already exists: "@ + id
}

/// The message for an identifier that names nothing.
pub open spec fn missing_message(id: Seq<char>) -> Seq<char> {
    "resource not found: "@ + id
}

/// `prefix + "_ch"`: what the names of a file's separate channels start with.
pub open spec fn channel_prefix(prefix: Seq<char>) -> Seq<char> {
    prefix + "_ch"@
}

/// The identifier `id` belongs to the resource `prefix`: it is `prefix`
/// itself or one of its channels.
pub open spec fn matches_prefix(id: Seq<char>, prefix: Seq<char>) -> bool {
    id == prefix || channel_prefix(prefix).is_prefix_of(id)
}

/// The texts of `names`.
pub open spec fn names_of(names: Seq<String>) -> Seq<Seq<char>> {
    names.map_values(|s: String| s@)
}

impl<S, W, A> ResourceManager<S, W, A> {
    /// No identifier is stored twice.
    pub closed spec fn wf(&self) -> bool {
        distinct_ids(self.entries@)
    }

    proof fn lemma_view(&self)
        requires
            self.wf(),
        ensures
            forall|k: Seq<char>|
                #[trigger] self@.contains_key(k) <==> exists|i: int|
                    0 <= i < self.entries@.len() && (#[trigger] self.entries@[i]).0@ == k,
            forall|i: int|
                0 <= i < self.entries@.len() ==> self@[(#[trigger] self.entries@[i]).0@]
                    == self.entries@[i].1,
            self@.dom().finite(),
            self@.len() == self.entries@.len(),
    {
        lemma_entries_map(self.entries@);
    }

    /// An empty manager.
    pub fn new() -> (r: Self)
        ensures
            r.wf(),
            r@ == Map::<Seq<char>, Resource<S, W, A>>::empty(),
    {
        ResourceManager { entries: Vec::new() }
    }

    /// Where the entry for `key` stands, if there is one.
    fn find(&self, key: &String) -> (r: Option<usize>)
        requires
            self.wf(),
        ensures
            match r {
                Some(i) => i < self.entries@.len() && self.entries@[i as int].0@ == key@,
                None => !self@.contains_key(key@),
            },
    {
        proof {
            self.lemma_view();
        }
        let mut i: usize = 0;
        while i < self.entries.len()
            invariant
                i <= self.entries@.len(),
                forall|k: int| 0 <= k < i ==> (#[trigger] self.entries@[k]).0@ != key@,
            decreases self.entries@.len() - i,
        {
            if self.entries[i].0.0 == *key {
                return Some(i);
            }
            i = i + 1;
        }
        None
    }

    /// Every entry, each once, in no particular order.
    pub fn snapshot(&self) -> (r: Vec<Entry<S, W, A>>)
        requires
            self.wf(),
        ensures
            distinct_ids(r@),
            entries_map(r@) == self@,
            r@.len() == self@.len(),
    {
        proof {
            self.lemma_view();
        }
        let mut out: Vec<Entry<S, W, A>> = Vec::new();
        let mut i: usize = 0;
        while i < self.entries.len()
            invariant
                i <= self.entries@.len(),
                out@ == self.entries@.take(i as int),
            decreases self.entries@.len() - i,
        {
            let id = self.entries[i].0.clone();
            let resource = self.entries[i].1.clone();
            out.push((id, resource));
            assert(self.entries@.take(i + 1) =~= self.entries@.take(i as int).push(
                self.entries@[i as int],
            ));
            i = i + 1;
        }
        assert(self.entries@.take(i as int) =~= self.entries@);
        out
    }

    /// The resource stored under `id`.
    pub fn get(&self, id: &str) -> (r: Option<&Resource<S, W, A>>)
        requires
            self.wf(),
        ensures
            match r {
                Some(v) => self@.contains_key(id@) && *v == self@[id@],
                None => !self@.contains_key(id@),
            },
    {
        proof {
            self.lemma_view();
        }
        let key = String::from_str(id);
        match self.find(&key) {
            Some(i) => Some(&self.entries[i].1),
            None => None,
        }
    }

    /// A copy of the resource stored under `id`.
    pub fn get_cloned(&self, id: &str) -> (r: Option<Resource<S, W, A>>)
        requires
            self.wf(),
        ensures
            match r {
                Some(v) => self@.contains_key(id@) && v == self@[id@],
                None => !self@.contains_key(id@),
            },
    {
        match self.get(id) {
            Some(v) => Some(v.clone()),
            None => None,
        }
    }
}

impl<S, W, A> ResourceManager<S, W, A> {
    /// Stores `resource` under `id`, in place of what was stored there,
    /// which it hands back. Never refused.
    pub fn insert(&mut self, id: &str, resource: Resource<S, W, A>) -> (r: Result<
        Option<Resource<S, W, A>>,
        String,
    >)
        requires
            old(self).wf(),
        ensures
            final(self).wf(),
            final(self)@ == old(self)@.insert(id@, resource),
            match r {
                Ok(Some(prev)) => old(self)@.contains_key(id@) && prev == old(self)@[id@],
                Ok(None) => !old(self)@.contains_key(id@),
                Err(_) => false,
            },
    {
        proof {
            self.lemma_view();
        }
        let key = String::from_str(id);
        match self.find(&key) {
            Some(i) => {
                let prev = self.entries[i].1.clone();
                let entry = (ResourceId(key), resource);
                proof {
                    lemma_entries_update(self.entries@, i as int, entry);
                }
                self.entries.set(i, entry);
                Ok(Some(prev))
            },
            None => {
                let entry = (ResourceId(key), resource);
                proof {
                    lemma_entries_push(self.entries@, entry);
                }
                self.entries.push(entry);
                Ok(None)
            },
        }
    }

    /// Stores `resource` under `id`, refused where `id` is already taken.
    pub fn add(&mut self, id: &str, resource: Resource<S, W, A>) -> (r: Result<(), String>)
        requires
            old(self).wf(),
        ensures
            final(self).wf(),
            match r {
                Ok(()) => !old(self)@.contains_key(id@) && final(self)@ == old(self)@.insert(
                    id@,
                    resource,
                ),
                Err(e) => old(self)@.contains_key(id@) && e@ == exists_message(id@) && final(self)@ == old(self)@,
            },
    {
        let key = String::from_str(id);
        match self.find(&key) {
            Some(_) => {
                proof {
                    self.lemma_view();
                }
                let mut message = String::from_str("resource already exists: ");
                message.append(id);
                Err(message)
            },
            None => {
                let entry = (ResourceId(key), resource);
                proof {
                    lemma_entries_push(self.entries@, entry);
                }
                self.entries.push(entry);
                Ok(())
            },
        }
    }

    /// Takes out and hands back the resource stored under `id`, refused
    /// where there is none.
    pub fn remove(&mut self, id: &str) -> (r: Result<Resource<S, W, A>, String>)
        requires
            old(self).wf(),
        ensures
            final(self).wf(),
            match r {
                Ok(v) => old(self)@.contains_key(id@) && v == old(self)@[id@] && final(self)@
                    == old(self)@.remove(id@),
                Err(e) => !old(self)@.contains_key(id@) && e@ == missing_message(id@) && final(self)@ == old(self)@,
            },
    {
        proof {
            self.lemma_view();
        }
        let key = String::from_str(id);
        match self.find(&key) {
            Some(i) => {
                proof {
                    lemma_entries_remove(self.entries@, i as int);
                }
                let (_, resource) = self.entries.remove(i);
                Ok(resource)
            },
            None => {
                let mut message = String::from_str("resource not found: ");
                message.append(id);
                Err(message)
            },
        }
    }

    /// Moves the resource stored under `from` to `to`; refused where `to`
    /// is taken (checked first) or `from` names nothing.
    pub fn rename(&mut self, from: &str, to: &str) -> (r: Result<(), String>)
        requires
            old(self).wf(),
        ensures
            final(self).wf(),
            match r {
                Ok(()) => {
                    &&& !old(self)@.contains_key(to@)
                    &&& old(self)@.contains_key(from@)
                    &&& final(self)@ == old(self)@.remove(from@).insert(to@, old(self)@[from@])
                },
                Err(e) => final(self)@ == old(self)@ && if old(self)@.contains_key(to@) {
                    e@ == exists_message(to@)
                } else {
                    !old(self)@.contains_key(from@) && e@ == missing_message(from@)
                },
            },
    {
        proof {
            self.lemma_view();
        }
        let to_key = String::from_str(to);
        if self.find(&to_key).is_some() {
            let mut message = String::from_str("resource already exists: ");
            message.append(to);
            return Err(message);
        }
        let from_key = String::from_str(from);
        match self.find(&from_key) {
            Some(i) => {
                proof {
                    lemma_entries_remove(self.entries@, i as int);
                }
                let (_, resource) = self.entries.remove(i);
                let entry = (ResourceId(to_key), resource);
                proof {
                    lemma_entries_push(self.entries@, entry);
                }
                self.entries.push(entry);
                Ok(())
            },
            None => {
                let mut message = String::from_str("resource not found: ");
                message.append(from);
                Err(message)
            },
        }
    }
}

impl<S, W, A> ResourceManager<S, W, A> {
    /// Keeps the entries whose flag in `keep` is set and hands back the
    /// others; `pred` says of an identifier what its flag is.
    fn retain_flagged(
        &mut self,
        keep: &Vec<bool>,
        Ghost(pred): Ghost<spec_fn(Seq<char>) -> bool>,
    ) -> (removed: Vec<Entry<S, W, A>>)
        requires
            old(self).wf(),
            keep@.len() == old(self).entries@.len(),
            forall|i: int|
                0 <= i < keep@.len() ==> keep@[i] == pred((#[trigger] old(self).entries@[i]).0@),
        ensures
            final(self).wf(),
            distinct_ids(removed@),
            final(self)@ == old(self)@.restrict(Set::new(pred)),
            entries_map(removed@) == old(self)@.restrict(Set::new(|k: Seq<char>| !pred(k))),
    {
        let ghost o = self.entries@;
        let ghost kept_keys = Set::new(pred);
        let ghost gone_keys = Set::new(|k: Seq<char>| !pred(k));
        let mut rest: Vec<Entry<S, W, A>> = Vec::new();
        std::mem::swap(&mut rest, &mut self.entries);
        let mut kept: Vec<Entry<S, W, A>> = Vec::new();
        let mut removed: Vec<Entry<S, W, A>> = Vec::new();
        let mut i: usize = 0;
        assert(o.take(0) =~= Seq::<Entry<S, W, A>>::empty());
        assert(entries_map(kept@) =~= entries_map(o.take(0)).restrict(kept_keys));
        assert(entries_map(removed@) =~= entries_map(o.take(0)).restrict(gone_keys));
        while i < rest.len()
            invariant
                rest@ == o,
                distinct_ids(o),
                keep@.len() == o.len(),
                forall|j: int| 0 <= j < keep@.len() ==> keep@[j] == pred((#[trigger] o[j]).0@),
                kept_keys == Set::new(pred),
                gone_keys == Set::new(|k: Seq<char>| !pred(k)),
                i <= o.len(),
                distinct_ids(kept@),
                distinct_ids(removed@),
                entries_map(kept@) == entries_map(o.take(i as int)).restrict(kept_keys),
                entries_map(removed@) == entries_map(o.take(i as int)).restrict(gone_keys),
            decreases o.len() - i,
        {
            let ghost before = o.take(i as int);
            let ghost after = o.take(i + 1);
            let id = rest[i].0.clone();
            let resource = rest[i].1.clone();
            let entry = (id, resource);
            proof {
                assert(entry == o[i as int]);
                assert(after.drop_last() =~= before);
                assert(distinct_ids(before));
                lemma_entries_map(before);
                if entries_map(before).contains_key(entry.0@) {
                    let m = choose|m: int| 0 <= m < before.len() && (#[trigger] before[m]).0@
                        == entry.0@;
                    assert(o[m] == before[m]);
                }
                assert(entries_map(after) == entries_map(before).insert(entry.0@, entry.1));
            }
            if keep[i] {
                proof {
                    lemma_entries_push(kept@, entry);
                    assert(entries_map(kept@.push(entry)) =~= entries_map(after).restrict(
                        kept_keys,
                    ));
                    assert(entries_map(removed@) =~= entries_map(after).restrict(gone_keys));
                }
                kept.push(entry);
            } else {
                proof {
                    lemma_entries_push(removed@, entry);
                    assert(entries_map(removed@.push(entry)) =~= entries_map(after).restrict(
                        gone_keys,
                    ));
                    assert(entries_map(kept@) =~= entries_map(after).restrict(kept_keys));
                }
                removed.push(entry);
            }
            i = i + 1;
        }
        assert(o.take(o.len() as int) =~= o);
        self.entries = kept;
        removed
    }

    /// Takes out and hands back the resource `prefix` and its separate
    /// channels: every identifier that is `prefix` or starts with
    /// `prefix + "_ch"`.
    pub fn remove_matching_prefix(&mut self, prefix: &str) -> (r: Vec<Entry<S, W, A>>)
        requires
            old(self).wf(),
        ensures
            final(self).wf(),
            final(self)@ == old(self)@.restrict(
                Set::new(|k: Seq<char>| !matches_prefix(k, prefix@)),
            ),
            distinct_ids(r@),
            entries_map(r@) == old(self)@.restrict(
                Set::new(|k: Seq<char>| matches_prefix(k, prefix@)),
            ),
    {
        let whole = str_chars(prefix);
        let mut channels = str_chars(prefix);
        channels.push('_');
        channels.push('c');
        channels.push('h');
        proof {
            reveal_strlit("_ch");
            assert(channels@ =~= channel_prefix(prefix@));
        }
        let ghost pred = |k: Seq<char>| !matches_prefix(k, prefix@);
        let mut keep: Vec<bool> = Vec::new();
        let mut i: usize = 0;
        while i < self.entries.len()
            invariant
                i <= self.entries@.len(),
                keep@.len() == i,
                whole@ == prefix@,
                channels@ == channel_prefix(prefix@),
                forall|j: int|
                    0 <= j < i ==> keep@[j] == !matches_prefix(
                        (#[trigger] self.entries@[j]).0@,
                        prefix@,
                    ),
            decreases self.entries@.len() - i,
        {
            let id = str_chars(self.entries[i].0.as_str());
            let matched = chars_eq(&id, &whole) || chars_start_with(&id, &channels);
            keep.push(!matched);
            i = i + 1;
        }
        let removed = self.retain_flagged(&keep, Ghost(pred));
        assert(Set::new(|k: Seq<char>| !pred(k)) =~= Set::new(
            |k: Seq<char>| matches_prefix(k, prefix@),
        ));
        removed
    }

    /// Keeps only the resources whose identifiers are among `keep`, and
    /// hands back the others.
    pub fn prune_except(&mut self, keep: Vec<String>) -> (r: Vec<Entry<S, W, A>>)
        requires
            old(self).wf(),
        ensures
            final(self).wf(),
            final(self)@ == old(self)@.restrict(
                Set::new(|k: Seq<char>| names_of(keep@).contains(k)),
            ),
            distinct_ids(r@),
            entries_map(r@) == old(self)@.restrict(
                Set::new(|k: Seq<char>| !names_of(keep@).contains(k)),
            ),
    {
        let ghost names = names_of(keep@);
        let ghost pred = |k: Seq<char>| names.contains(k);
        let mut flags: Vec<bool> = Vec::new();
        let mut i: usize = 0;
        while i < self.entries.len()
            invariant
                i <= self.entries@.len(),
                flags@.len() == i,
                names == names_of(keep@),
                forall|j: int|
                    0 <= j < i ==> flags@[j] == names.contains((#[trigger] self.entries@[j]).0@),
            decreases self.entries@.len() - i,
        {
            let id = &self.entries[i].0.0;
            let mut found = false;
            let mut j: usize = 0;
            while j < keep.len()
                invariant
                    j <= keep@.len(),
                    names == names_of(keep@),
                    found <==> exists|m: int| 0 <= m < j && (#[trigger] names[m]) == id@,
                decreases keep@.len() - j,
            {
                assert(names[j as int] == keep@[j as int]@);
                if keep[j] == *id {
                    found = true;
                }
                j = j + 1;
            }
            proof {
                if found {
                    let m = choose|m: int| 0 <= m < j && (#[trigger] names[m]) == id@;
                    assert(names.contains(id@));
                }
                if names.contains(id@) {
                    let m = choose|m: int| 0 <= m < names.len() && names[m] == id@;
                    assert(names[m] == id@);
                }
            }
            flags.push(found);
            i = i + 1;
        }
        self.retain_flagged(&flags, Ghost(pred))
    }
}

impl AsRef<str> for ResourceId {
    fn as_ref(&self) -> (r: &str)
        ensures
            r@ == self@,
    {
        self.as_str()
    }
}

impl<S, W, A> Clone for ResourceManager<S, W, A> {
    fn clone(&self) -> (r: Self)
        ensures
            r@ == self@,
            r.wf() == self.wf(),
    {
        let mut entries: Vec<Entry<S, W, A>> = Vec::new();
        let mut i: usize = 0;
        while i < self.entries.len()
            invariant
                i <= self.entries@.len(),
                entries@ == self.entries@.take(i as int),
            decreases self.entries@.len() - i,
        {
            entries.push((self.entries[i].0.clone(), self.entries[i].1.clone()));
            assert(self.entries@.take(i + 1) =~= self.entries@.take(i as int).push(
                self.entries@[i as int],
            ));
            i = i + 1;
        }
        assert(self.entries@.take(i as int) =~= self.entries@);
        ResourceManager { entries }
    }
}

impl<S, W, A> Default for ResourceManager<S, W, A> {
    fn default() -> (r: Self)
        ensures
            r.wf(),
            r@ == Map::<Seq<char>, Resource<S, W, A>>::empty(),
    {
        ResourceManager::new()
    }
}

// ---------------------------------------------------------------------------
// Descriptions
// ---------------------------------------------------------------------------

/// How a buffer describes itself: its sample rate, channel count and
/// number of samples, in `Debug` form.
pub open spec fn audio_description(sample_rate: nat, channels: nat, samples: nat) -> Seq<char> {
    "AudioBuffer { sample_rate: "@ + decimal(sample_rate) + ", channels: "@ + decimal(channels)
        + ", samples: "@ + decimal(samples) + " }"@
}

/// `tag(len)`, as `Debug` writes a one-field tuple of a length.
pub open spec fn tagged(tag: Seq<char>, len: nat) -> Seq<char> {
    tag + "("@ + decimal(len) + ")"@
}

/// How a resource describes itself: audio as its buffer does, other data
/// by its kind and length (bytes for text), an opaque value without
/// detail; the data itself is never shown.
pub open spec fn resource_description<S, W, A>(r: Resource<S, W, A>) -> Seq<char> {
    match r {
        Resource::Audio(b) => audio_description(
            b.sample_rate as nat,
            b.channels as nat,
            b.samples@.len(),
        ),
        Resource::F32(v) => tagged("F32"@, v@.len()),
        Resource::F64(v) => tagged("F64"@, v@.len()),
        Resource::Bytes(v) => tagged("Bytes"@, v@.len()),
        Resource::Text(t) => tagged("Text"@, (encode_utf8(t@).len() as usize) as nat),
        Resource::Any(_) => "Any(<opaque>)"@,
    }
}

fn tagged_length(tag: &str, len: usize) -> (r: String)
    ensures
        r@ == tagged(tag@, len as nat),
{
    let mut r = String::from_str(tag);
    r.append("(");
    push_decimal(len, &mut r);
    r.append(")");
    r
}

impl<S> AudioBuffer<S> {
    /// The buffer's description (see `audio_description`).
    pub fn describe(&self) -> (r: String)
        ensures
            r@ == audio_description(
                self.sample_rate as nat,
                self.channels as nat,
                self.samples@.len(),
            ),
    {
        let mut r = String::from_str("AudioBuffer { sample_rate: ");
        push_decimal(self.sample_rate as usize, &mut r);
        r.append(", channels: ");
        push_decimal(self.channels as usize, &mut r);
        r.append(", samples: ");
        push_decimal(self.samples.len(), &mut r);
        r.append(" }");
        r
    }
}

impl<S, W, A> Resource<S, W, A> {
    /// The resource's description (see `resource_description`).
    pub fn describe(&self) -> (r: String)
        ensures
            r@ == resource_description(*self),
    {
        match self {
            Resource::Audio(buffer) => buffer.describe(),
            Resource::F32(samples) => tagged_length("F32", samples.len()),
            Resource::F64(samples) => tagged_length("F64", samples.len()),
            Resource::Bytes(bytes) => tagged_length("Bytes", bytes.len()),
            Resource::Text(text) => tagged_length("Text", text.as_str().len()),
            Resource::Any(_) => String::from_str("Any(<opaque>)"),
        }
    }
}

} // verus!
