//! What holds across the operations of the store and the server, stated
//! over the models their contracts use.

use vstd::prelude::*;

use crate::resource::{
    channel_name, channel_prefix, lemma_name_from_stem_bounds, matches_prefix, name_from_stem,
    normalized_name, Resource, MAX_NAME_CHARS,
};
use crate::server::keep_names;
use crate::http::{
    all_digits, digits_value, eq_ignore_ascii_case, header_line_meaning, is_digit, parse_query,
    parse_usize, target_path, target_query, HeaderLine,
};
use crate::server::{le16, le32, wav_data_len, wav_header_bytes, wav_header_fits};
use crate::text::{
    decimal, digit_char, find_char, is_white_space, lemma_find_char_skip, split_at_sep,
    split_once, trim, trim_end, trim_start,
};

verus! {

/// A name derived from a file name is never empty and never longer than
/// `MAX_NAME_CHARS` characters.
pub proof fn law_normalized_name_bounds(name: Seq<char>)
    ensures
        0 < normalized_name(name).len() <= MAX_NAME_CHARS,
{
    lemma_name_from_stem_bounds(name, crate::resource::path_file_stem(name));
}

/// Every channel name of a file belongs to the file's resource name, so
/// taking out that name's resources (as loading the file again does) takes
/// out its channels too.
pub proof fn law_channel_names_match_their_file(name: Seq<char>, channel: nat)
    ensures
        matches_prefix(channel_name(name, channel), normalized_name(name)),
{
    let n = normalized_name(name);
    let c = channel_name(name, channel);
    assert(c == channel_prefix(n) + decimal(channel + 1));
    assert(c.take(channel_prefix(n).len() as int) =~= channel_prefix(n));
}

/// Reading back what was stored gives what was stored.
pub proof fn law_read_after_insert<S, W, A>(
    m: Map<Seq<char>, Resource<S, W, A>>,
    id: Seq<char>,
    r: Resource<S, W, A>,
)
    ensures
        m.insert(id, r).contains_key(id),
        m.insert(id, r)[id] == r,
{
}

/// Storing under a free name and then removing that name leaves the store
/// as it was.
pub proof fn law_add_then_remove<S, W, A>(
    m: Map<Seq<char>, Resource<S, W, A>>,
    id: Seq<char>,
    r: Resource<S, W, A>,
)
    requires
        !m.contains_key(id),
    ensures
        m.insert(id, r).remove(id) == m,
{
    assert(m.insert(id, r).remove(id) =~= m);
}

/// A rename followed by the rename back leaves the store as it was.
pub proof fn law_rename_and_back<S, W, A>(
    m: Map<Seq<char>, Resource<S, W, A>>,
    from: Seq<char>,
    to: Seq<char>,
)
    requires
        m.contains_key(from),
        !m.contains_key(to),
    ensures
        ({
            let renamed = m.remove(from).insert(to, m[from]);
            &&& renamed.contains_key(to)
            &&& !renamed.contains_key(from)
            &&& renamed.remove(to).insert(from, renamed[to]) == m
        }),
{
    let renamed = m.remove(from).insert(to, m[from]);
    assert(renamed.remove(to).insert(from, renamed[to]) =~= m);
}

/// Taking out a name's resources splits the store in two: what stays and
/// what goes hold no key in common and together hold the whole store; and
/// doing it again takes out nothing.
pub proof fn law_prefix_removal_partitions<S, W, A>(
    m: Map<Seq<char>, Resource<S, W, A>>,
    prefix: Seq<char>,
)
    ensures
        ({
            let stays = m.restrict(Set::new(|k: Seq<char>| !matches_prefix(k, prefix)));
            let goes = m.restrict(Set::new(|k: Seq<char>| matches_prefix(k, prefix)));
            &&& stays.dom().disjoint(goes.dom())
            &&& stays.union_prefer_right(goes) == m
            &&& stays.restrict(Set::new(|k: Seq<char>| !matches_prefix(k, prefix))) == stays
            &&& stays.restrict(Set::new(|k: Seq<char>| matches_prefix(k, prefix))).is_empty()
        }),
{
    let stays = m.restrict(Set::new(|k: Seq<char>| !matches_prefix(k, prefix)));
    let goes = m.restrict(Set::new(|k: Seq<char>| matches_prefix(k, prefix)));
    assert(stays.union_prefer_right(goes) =~= m);
    assert(stays.restrict(Set::new(|k: Seq<char>| !matches_prefix(k, prefix))) =~= stays);
    assert(stays.restrict(Set::new(|k: Seq<char>| matches_prefix(k, prefix))) =~= Map::empty());
}

/// Pruning keeps only listed names, and pruning again with the same list
/// changes nothing.
pub proof fn law_prune_keeps_listed_and_settles<S, W, A>(
    m: Map<Seq<char>, Resource<S, W, A>>,
    keep: Seq<Seq<char>>,
)
    ensures
        ({
            let kept = m.restrict(Set::new(|k: Seq<char>| keep.contains(k)));
            &&& forall|k: Seq<char>| #[trigger] kept.contains_key(k) ==> keep.contains(k)
            &&& kept.restrict(Set::new(|k: Seq<char>| keep.contains(k))) == kept
        }),
{
    let kept = m.restrict(Set::new(|k: Seq<char>| keep.contains(k)));
    assert(kept.restrict(Set::new(|k: Seq<char>| keep.contains(k))) =~= kept);
}

/// Loading a file stores the new audio under the file's resource name and
/// leaves none of the file's earlier channel resources behind.
pub proof fn law_load_replaces_file_and_channels<S, W, A>(
    m: Map<Seq<char>, Resource<S, W, A>>,
    name: Seq<char>,
    audio: Resource<S, W, A>,
)
    ensures
        ({
            let base = normalized_name(name);
            let loaded = m.restrict(Set::new(|k: Seq<char>| !matches_prefix(k, base))).insert(
                base,
                audio,
            );
            &&& loaded[base] == audio
            &&& forall|c: nat| !(#[trigger] loaded.contains_key(channel_name(name, c)))
        }),
{
    let base = normalized_name(name);
    assert forall|c: nat| true implies matches_prefix(#[trigger] channel_name(name, c), base)
        && channel_name(name, c) != base by {
        law_channel_names_match_their_file(name, c);
        assert(channel_name(name, c).len() > base.len());
    }
}

/// A WAV header is always 44 bytes long.
pub proof fn law_wav_header_is_44_bytes(sample_count: nat, sample_rate: nat, channels: nat)
    ensures
        wav_header_bytes(sample_count, sample_rate, channels).len() == 44,
{
}

proof fn lemma_digit_char_value(d: nat)
    requires
        d < 10,
    ensures
        (digit_char(d) as u32) == d + 48,
        is_digit(digit_char(d)),
{
}

/// The decimal digits of `n` are digits, and they read back as `n`.
pub proof fn lemma_decimal_reads_back(n: nat)
    ensures
        decimal(n).len() >= 1,
        all_digits(decimal(n)),
        digits_value(decimal(n)) == n,
    decreases n,
{
    if n >= 10 {
        lemma_decimal_reads_back(n / 10);
        let d = decimal(n);
        assert(d.drop_last() =~= decimal(n / 10));
        assert(d.last() == digit_char(n % 10));
        lemma_digit_char_value(n % 10);
        assert(digits_value(d) == digits_value(d.drop_last()) * 10 + ((d.last() as u32) - 48) as nat);
        assert(digits_value(d) == (n / 10) * 10 + n % 10);
        assert forall|i: int| 0 <= i < d.len() implies is_digit(#[trigger] d[i]) by {
            if i < d.len() - 1 {
                assert(d[i] == decimal(n / 10)[i]);
            }
        }
    } else {
        assert(decimal(n)[0] == digit_char(n));
        lemma_digit_char_value(n);
        assert(decimal(n).drop_last() =~= Seq::<char>::empty());
        assert(digits_value(decimal(n)) == digits_value(decimal(n).drop_last()) * 10 + ((decimal(n).last() as u32) - 48) as nat);
    }
}

proof fn lemma_digits_not_white(s: Seq<char>, tail: Seq<char>, lead: Seq<char>)
    requires
        s.len() >= 1,
        all_digits(s),
        lead.len() <= 1,
        forall|i: int| 0 <= i < lead.len() ==> is_white_space(#[trigger] lead[i]),
        forall|i: int| 0 <= i < tail.len() ==> is_white_space(#[trigger] tail[i]),
    ensures
        trim(lead + s + tail) == s,
    decreases tail.len(),
{
    assert(is_digit(s[0]) && is_digit(s[s.len() - 1]));
    if lead.len() == 1 {
        assert((lead + s + tail).drop_first() =~= s + tail);
        assert(trim_start(lead + s + tail) == trim_start(s + tail));
    } else {
        assert(lead + s + tail =~= s + tail);
    }
    assert((s + tail)[0] == s[0]);
    assert(trim_start(s + tail) == s + tail);
    lemma_trim_end_white_tail(s, tail);
}

proof fn lemma_trim_end_white_tail(s: Seq<char>, tail: Seq<char>)
    requires
        s.len() >= 1,
        all_digits(s),
        forall|i: int| 0 <= i < tail.len() ==> is_white_space(#[trigger] tail[i]),
    ensures
        trim_end(s + tail) == s,
    decreases tail.len(),
{
    if tail.len() == 0 {
        assert(s + tail =~= s);
        assert(is_digit(s[s.len() - 1]));
    } else {
        assert((s + tail).drop_last() =~= s + tail.drop_last());
        assert((s + tail).last() == tail[tail.len() - 1]);
        lemma_trim_end_white_tail(s, tail.drop_last());
    }
}

/// The server reads back the length it writes: a `Content-Length` header
/// written as `response_head` writes it means that very length to
/// `parse_header_line`.
pub proof fn law_content_length_reads_back(n: nat)
    requires
        n <= usize::MAX,
    ensures
        header_line_meaning("Content-Length: "@ + decimal(n) + "\r\n"@) == HeaderLine::ContentLength(
            n as usize,
        ),
{
    reveal_strlit("Content-Length: ");
    reveal_strlit("\r\n");
    reveal_strlit("content-length");
    reveal_strlit(" ");
    lemma_decimal_reads_back(n);
    let head = "Content-Length: "@;
    let d = decimal(n);
    let crlf = "\r\n"@;
    let line = head + d + crlf;
    assert(line.len() > 2);
    assert(line != crlf);
    assert forall|k: int| 0 <= k < 14 implies line[k] != ':' by {
        assert(line[k] == head[k]);
    }
    lemma_find_char_skip(line, ':', 14);
    assert(line.skip(14)[0] == ':');
    assert(find_char(line, ':') == Some(14int));
    let name = line.take(14);
    let value = line.skip(15);
    assert(name =~= head.take(14));
    assert(eq_ignore_ascii_case(name, "content-length"@));
    assert(value =~= " "@ + d + crlf);
    lemma_digits_not_white(d, crlf, " "@);
    assert(trim(value) == d);
    assert(d.len() == 0 || d[0] != '+') by {
        assert(is_digit(d[0]));
    }
    assert((if d.len() > 0 && d[0] == '+' {
        d.drop_first()
    } else {
        d
    }) == d);
    assert(parse_usize(d) == Some(n));
}

/// A header whose name is not `Content-Length` (in any ASCII case) says
/// nothing of the body's length: such a line, the blank line aside, means
/// `Other`.
pub proof fn law_other_headers_leave_length(line: Seq<char>)
    requires
        line != "\r\n"@,
        match split_once(line, ':') {
            Some((name, _)) => !eq_ignore_ascii_case(name, "content-length"@),
            None => true,
        },
    ensures
        header_line_meaning(line) == HeaderLine::Other,
{
}

/// Only a header named `Content-Length` gives a body length.
pub proof fn law_only_content_length_gives_length(line: Seq<char>)
    ensures
        header_line_meaning(line) is ContentLength ==> match split_once(line, ':') {
            Some((name, _)) => name.len() == 14 && eq_ignore_ascii_case(name, "content-length"@),
            None => false,
        },
{
    reveal_strlit("content-length");
}

/// A `Content-Type` header, whatever its value, is not read as a length.
pub proof fn law_content_type_is_other(v: Seq<char>)
    ensures
        header_line_meaning("Content-Type: "@ + v + "\r\n"@) == HeaderLine::Other,
{
    reveal_strlit("Content-Type: ");
    reveal_strlit("\r\n");
    reveal_strlit("content-length");
    let head = "Content-Type: "@;
    let line = head + v + "\r\n"@;
    assert(line.len() > 2);
    assert(line[0] == 'C');
    assert("\r\n"@[0] == '\r');
    assert(line != "\r\n"@);
    assert forall|k: int| 0 <= k < 12 implies line[k] != ':' by {
        assert(line[k] == head[k]);
    }
    lemma_find_char_skip(line, ':', 12);
    assert(line.skip(12)[0] == ':');
    assert(find_char(line, ':') == Some(12int));
    assert(line.take(12).len() != "content-length"@.len());
}

/// Where a text holds no separator, splitting it gives the text itself as
/// the one piece.
pub proof fn lemma_split_without_separator(s: Seq<char>, sep: char)
    requires
        forall|i: int| 0 <= i < s.len() ==> s[i] != sep,
    ensures
        split_at_sep(s, sep) == seq![s],
    decreases s.len(),
{
    if s.len() == 0 {
        assert(s =~= Seq::<char>::empty());
        assert(split_at_sep(s, sep) =~= seq![s]);
    } else {
        let p = s.drop_last();
        lemma_split_without_separator(p, sep);
        assert(s.last() == s[s.len() - 1]);
        assert(p.push(s.last()) =~= s);
        assert(split_at_sep(s, sep) =~= seq![s]);
    }
}

/// A query parameter keeps its value exactly as written: in `k=v`, with a
/// non-empty key holding neither `=` nor `&` and a value without `&`, the
/// parameter `k` is `v`.
pub proof fn law_query_value_verbatim(k: Seq<char>, v: Seq<char>)
    requires
        k.len() > 0,
        forall|i: int| 0 <= i < k.len() ==> k[i] != '=' && k[i] != '&',
        forall|i: int| 0 <= i < v.len() ==> v[i] != '&',
    ensures
        parse_query(k + "="@ + v).contains_key(k),
        parse_query(k + "="@ + v)[k] == v,
{
    reveal_strlit("=");
    let q = k + "="@ + v;
    assert forall|i: int| 0 <= i < q.len() implies q[i] != '&' by {
        if i < k.len() {
            assert(q[i] == k[i]);
        } else if i > k.len() {
            assert(q[i] == v[i - k.len() - 1]);
        }
    }
    lemma_split_without_separator(q, '&');
    assert forall|i: int| 0 <= i < k.len() implies q[i] != '=' by {
        assert(q[i] == k[i]);
    }
    lemma_find_char_skip(q, '=', k.len() as int);
    assert(q.skip(k.len() as int)[0] == '=');
    assert(find_char(q, '=') == Some(k.len() as int));
    assert(q.take(k.len() as int) =~= k);
    assert(q.skip(k.len() as int + 1) =~= v);
    let pieces = split_at_sep(q, '&');
    assert(pieces.drop_last() =~= Seq::<Seq<char>>::empty());
    assert(pieces.last() == q);
}

/// A request target splits at its first `?`: a path without `?` comes back
/// as the path, and all that follows the `?` as the query string.
pub proof fn law_target_splits_at_question_mark(path: Seq<char>, query: Seq<char>)
    requires
        forall|i: int| 0 <= i < path.len() ==> path[i] != '?',
    ensures
        target_path(path + "?"@ + query) == path,
        target_query(path + "?"@ + query) == query,
        target_path(path) == path,
        target_query(path) == Seq::<char>::empty(),
{
    reveal_strlit("?");
    let t = path + "?"@ + query;
    assert forall|i: int| 0 <= i < path.len() implies t[i] != '?' by {
        assert(t[i] == path[i]);
    }
    lemma_find_char_skip(t, '?', path.len() as int);
    assert(t.skip(path.len() as int)[0] == '?');
    assert(t.take(path.len() as int) =~= path);
    assert(t.skip(path.len() as int + 1) =~= query);
    lemma_find_char_skip(path, '?', path.len() as int);
    assert(path.skip(path.len() as int) =~= Seq::<char>::empty());
}

/// The number two little-endian bytes at `i` write.
pub open spec fn read_le16(s: Seq<u8>, i: int) -> nat {
    s[i] as nat + 256 * (s[i + 1] as nat)
}

/// The number four little-endian bytes at `i` write.
pub open spec fn read_le32(s: Seq<u8>, i: int) -> nat {
    s[i] as nat + 256 * (s[i + 1] as nat) + 65536 * (s[i + 2] as nat) + 16777216 * (s[i
        + 3] as nat)
}

proof fn lemma_le16_reads_back(x: nat)
    requires
        x <= 0xffff,
    ensures
        read_le16(le16(x), 0) == x,
{
    assert((x % 256) + 256 * ((x / 256) % 256) == x) by (nonlinear_arith)
        requires
            x <= 0xffff,
    ;
}

proof fn lemma_le32_reads_back(x: nat)
    requires
        x <= 0xffff_ffff,
    ensures
        read_le32(le32(x), 0) == x,
{
    assert((x % 256) + 256 * ((x / 256) % 256) + 65536 * ((x / 65536) % 256) + 16777216 * ((x
        / 16777216) % 256) == x) by (nonlinear_arith)
        requires
            x <= 0xffff_ffff,
    ;
}

/// Every field of a WAV header reads back, little-endian, as what it
/// describes: the file and data sizes, PCM format, the channel count, the
/// sample rate, the byte rate and block size that follow from them, and 16
/// bits a sample.
pub proof fn law_wav_header_fields(sample_count: nat, sample_rate: nat, channels: nat)
    requires
        sample_rate <= u32::MAX,
        channels <= u16::MAX,
        wav_header_fits(sample_count, sample_rate, channels),
    ensures
        ({
            let h = wav_header_bytes(sample_count, sample_rate, channels);
            &&& h.len() == 44
            &&& read_le32(h, 4) == 36 + wav_data_len(sample_count)
            &&& read_le32(h, 16) == 16
            &&& read_le16(h, 20) == 1
            &&& read_le16(h, 22) == channels
            &&& read_le32(h, 24) == sample_rate
            &&& read_le32(h, 28) == sample_rate * channels * 2
            &&& read_le16(h, 32) == channels * 2
            &&& read_le16(h, 34) == 16
            &&& read_le32(h, 40) == wav_data_len(sample_count)
        }),
{
    let d = wav_data_len(sample_count);
    lemma_le32_reads_back(36 + d);
    lemma_le32_reads_back(16);
    lemma_le16_reads_back(1);
    lemma_le16_reads_back(channels);
    lemma_le32_reads_back(sample_rate);
    lemma_le32_reads_back(sample_rate * channels * 2);
    lemma_le16_reads_back(channels * 2);
    lemma_le16_reads_back(16);
    lemma_le32_reads_back(d);
    lemma_wav_fields_head(sample_count, sample_rate, channels);
    lemma_wav_fields_format(sample_count, sample_rate, channels);
    lemma_wav_fields_tail(sample_count, sample_rate, channels);
}

#[verifier::spinoff_prover]
proof fn lemma_wav_fields_head(sample_count: nat, sample_rate: nat, channels: nat)
    ensures
        ({
            let h = wav_header_bytes(sample_count, sample_rate, channels);
            &&& h.len() == 44
            &&& h.subrange(4, 8) == le32(36 + wav_data_len(sample_count))
            &&& h.subrange(16, 20) == le32(16)
            &&& h.subrange(20, 22) == le16(1)
        }),
{
    let h = wav_header_bytes(sample_count, sample_rate, channels);
    assert(h.subrange(4, 8) =~= le32(36 + wav_data_len(sample_count)));
    assert(h.subrange(16, 20) =~= le32(16));
    assert(h.subrange(20, 22) =~= le16(1));
}

#[verifier::spinoff_prover]
#[verifier::rlimit(60)]
proof fn lemma_wav_fields_format(sample_count: nat, sample_rate: nat, channels: nat)
    ensures
        ({
            let h = wav_header_bytes(sample_count, sample_rate, channels);
            &&& h.subrange(22, 24) == le16(channels)
            &&& h.subrange(24, 28) == le32(sample_rate)
            &&& h.subrange(28, 32) == le32(sample_rate * channels * 2)
        }),
{
    let h = wav_header_bytes(sample_count, sample_rate, channels);
    assert(h.subrange(22, 24) =~= le16(channels));
    assert(h.subrange(24, 28) =~= le32(sample_rate));
    assert(h.subrange(28, 32) =~= le32(sample_rate * channels * 2));
}

#[verifier::spinoff_prover]
proof fn lemma_wav_fields_tail(sample_count: nat, sample_rate: nat, channels: nat)
    ensures
        ({
            let h = wav_header_bytes(sample_count, sample_rate, channels);
            &&& h.subrange(32, 34) == le16(channels * 2)
            &&& h.subrange(34, 36) == le16(16)
            &&& h.subrange(40, 44) == le32(wav_data_len(sample_count))
        }),
{
    let h = wav_header_bytes(sample_count, sample_rate, channels);
    assert(h.subrange(32, 34) =~= le16(channels * 2));
    assert(h.subrange(34, 36) =~= le16(16));
    assert(h.subrange(40, 44) =~= le32(wav_data_len(sample_count)));
}

proof fn lemma_trim_start_is_suffix(s: Seq<char>)
    ensures
        exists|a: int| 0 <= a <= s.len() && #[trigger] s.skip(a) == trim_start(s),
    decreases s.len(),
{
    if s.len() > 0 && is_white_space(s[0]) {
        lemma_trim_start_is_suffix(s.drop_first());
        let a = choose|a: int|
            0 <= a <= s.drop_first().len() && #[trigger] s.drop_first().skip(a) == trim_start(
                s.drop_first(),
            );
        assert(s.skip(a + 1) =~= s.drop_first().skip(a));
    } else {
        assert(s.skip(0) =~= s);
    }
}

proof fn lemma_trim_end_is_prefix(s: Seq<char>)
    ensures
        exists|b: int| 0 <= b <= s.len() && #[trigger] s.take(b) == trim_end(s),
    decreases s.len(),
{
    if s.len() > 0 && is_white_space(s.last()) {
        lemma_trim_end_is_prefix(s.drop_last());
        let b = choose|b: int|
            0 <= b <= s.drop_last().len() && #[trigger] s.drop_last().take(b) == trim_end(
                s.drop_last(),
            );
        assert(s.take(b) =~= s.drop_last().take(b));
    } else {
        assert(s.take(s.len() as int) =~= s);
    }
}

/// Trimming keeps one unbroken stretch of the text.
pub proof fn lemma_trim_is_stretch(s: Seq<char>)
    ensures
        exists|a: int, b: int| 0 <= a <= b <= s.len() && #[trigger] s.subrange(a, b) == trim(s),
{
    lemma_trim_start_is_suffix(s);
    let a = choose|a: int| 0 <= a <= s.len() && #[trigger] s.skip(a) == trim_start(s);
    let t = s.skip(a);
    lemma_trim_end_is_prefix(t);
    let b = choose|b: int| 0 <= b <= t.len() && #[trigger] t.take(b) == trim_end(t);
    assert(s.subrange(a, a + b) =~= t.take(b));
}

/// A stem with nothing to trim and at most `MAX_NAME_CHARS` characters is
/// the name unchanged, white space inside it included.
pub proof fn law_plain_stem_is_the_name(name: Seq<char>, stem: Seq<char>)
    requires
        trim(stem) == stem,
        0 < stem.len() <= MAX_NAME_CHARS,
    ensures
        name_from_stem(name, Some(stem)) == stem,
{
}

/// Where the stem holds more than white space, the name is one unbroken
/// stretch of it (nothing inside is dropped or changed), as long as what
/// remains after trimming, up to `MAX_NAME_CHARS` characters.
pub proof fn law_name_is_stretch_of_stem(name: Seq<char>, stem: Seq<char>)
    requires
        trim(stem).len() > 0,
    ensures
        ({
            let r = name_from_stem(name, Some(stem));
            &&& r.len() == if trim(stem).len() <= MAX_NAME_CHARS {
                trim(stem).len()
            } else {
                MAX_NAME_CHARS as nat
            }
            &&& exists|a: int|
                0 <= a && a + r.len() <= stem.len() && #[trigger] stem.subrange(a, a + r.len())
                    == r
        }),
{
    lemma_trim_is_stretch(stem);
    let (a, b) = choose|a: int, b: int|
        0 <= a <= b <= stem.len() && #[trigger] stem.subrange(a, b) == trim(stem);
    let r = name_from_stem(name, Some(stem));
    assert(stem.subrange(a, a + r.len()) =~= r);
}

/// Every listed piece that holds more than white space is kept under the
/// name its file name derives, once trimmed.
pub proof fn law_keep_names_list_every_piece(pieces: Seq<Seq<char>>)
    ensures
        forall|i: int|
            0 <= i < pieces.len() && trim(#[trigger] pieces[i]).len() > 0 ==> keep_names(
                pieces,
            ).contains(normalized_name(trim(pieces[i]))),
        forall|j: int|
            #![trigger keep_names(pieces)[j]]
            0 <= j < keep_names(pieces).len() ==> exists|i: int|
                0 <= i < pieces.len() && trim(#[trigger] pieces[i]).len() > 0 && keep_names(
                    pieces,
                )[j] == normalized_name(trim(pieces[i])),
    decreases pieces.len(),
{
    if pieces.len() > 0 {
        let p = pieces.drop_last();
        law_keep_names_list_every_piece(p);
        let k = keep_names(pieces);
        let kp = keep_names(p);
        assert forall|i: int|
            0 <= i < pieces.len() && trim(#[trigger] pieces[i]).len() > 0 implies k.contains(
            normalized_name(trim(pieces[i])),
        ) by {
            if i < pieces.len() - 1 {
                assert(p[i] == pieces[i]);
                let j = choose|j: int|
                    0 <= j < kp.len() && kp[j] == normalized_name(trim(p[i]));
                assert(k[j] == kp[j]);
            } else {
                assert(pieces.last() == pieces[i]);
                assert(k[k.len() - 1] == normalized_name(trim(pieces[i])));
            }
        }
        assert forall|j: int| #![trigger k[j]] 0 <= j < k.len() implies exists|i: int|
            0 <= i < pieces.len() && trim(#[trigger] pieces[i]).len() > 0 && k[j]
                == normalized_name(trim(pieces[i])) by {
            if j < kp.len() {
                assert(k[j] == kp[j]);
                let i = choose|i: int|
                    0 <= i < p.len() && trim(#[trigger] p[i]).len() > 0 && kp[j]
                        == normalized_name(trim(p[i]));
                assert(pieces[i] == p[i]);
            } else {
                let i = pieces.len() - 1;
                assert(pieces[i] == pieces.last());
            }
        }
    }
}

/// A keep list of one file name keeps just the name that file derives.
pub proof fn law_keep_list_of_one(piece: Seq<char>)
    requires
        forall|i: int| 0 <= i < piece.len() ==> piece[i] != ',',
        trim(piece).len() > 0,
    ensures
        keep_names(split_at_sep(piece, ',')) == seq![normalized_name(trim(piece))],
{
    lemma_split_without_separator(piece, ',');
    let ps = seq![piece];
    assert(ps.drop_last() =~= Seq::<Seq<char>>::empty());
    assert(keep_names(ps.drop_last()) =~= Seq::<Seq<char>>::empty());
    assert(ps.last() == piece);
    assert(keep_names(ps) =~= seq![normalized_name(trim(piece))]);
}

} // verus!
