//! The request side of the resource server's HTTP: request targets and
//! their query strings, request lines, the `Content-Length` header, and the
//! head of a response.

use vstd::prelude::*;

use crate::text::{
    decimal, find_char, find_char_in, push_decimal, split_at_sep, split_chars, split_once,
    str_chars, string_from_chars, trim, trim_bounds, trim_end, trim_end_len, words, words_of,
};

verus! {

// ---------------------------------------------------------------------------
// Query strings
// ---------------------------------------------------------------------------

/// The map that key/value pairs describe, a later pair for a key
/// overriding an earlier one.
pub open spec fn pairs_map(ps: Seq<(Seq<char>, Seq<char>)>) -> Map<Seq<char>, Seq<char>>
    decreases ps.len(),
{
    if ps.len() == 0 {
        Map::empty()
    } else {
        pairs_map(ps.drop_last()).insert(ps.last().0, ps.last().1)
    }
}

/// The key and value of one `key=value` piece of a query string: cut at the
/// first `=`, or the whole piece and an empty value where it has none.
pub open spec fn query_pair(piece: Seq<char>) -> (Seq<char>, Seq<char>) {
    match split_once(piece, '=') {
        Some(kv) => kv,
        None => (piece, Seq::empty()),
    }
}

/// The pairs of the non-empty pieces, in order.
pub open spec fn query_pairs(pieces: Seq<Seq<char>>) -> Seq<(Seq<char>, Seq<char>)>
    decreases pieces.len(),
{
    if pieces.len() == 0 {
        Seq::empty()
    } else {
        let p = query_pairs(pieces.drop_last());
        if pieces.last().len() == 0 {
            p
        } else {
            p.push(query_pair(pieces.last()))
        }
    }
}

/// The parameters of the query string `q`: its `&`-separated pieces, empty
/// ones skipped, each cut at its first `=`, a later key overriding an
/// earlier one.
pub open spec fn parse_query(q: Seq<char>) -> Map<Seq<char>, Seq<char>> {
    pairs_map(query_pairs(split_at_sep(q, '&')))
}

/// The path of a request target: what comes before the first `?`.
pub open spec fn target_path(t: Seq<char>) -> Seq<char> {
    match split_once(t, '?') {
        Some((p, _)) => p,
        None => t,
    }
}

/// The query string of a request target: what comes after the first `?`.
pub open spec fn target_query(t: Seq<char>) -> Seq<char> {
    match split_once(t, '?') {
        Some((_, q)) => q,
        None => Seq::empty(),
    }
}

/// Where the last pair for `key` stands, the map holds that pair's value;
/// where no pair has `key`, the map does not hold it.
pub proof fn lemma_pairs_map_last(ps: Seq<(Seq<char>, Seq<char>)>, key: Seq<char>, i: int)
    requires
        -1 <= i < ps.len(),
        i >= 0 ==> ps[i].0 == key,
        forall|j: int| i < j < ps.len() ==> (#[trigger] ps[j]).0 != key,
    ensures
        i >= 0 ==> pairs_map(ps).contains_key(key) && pairs_map(ps)[key] == ps[i].1,
        i < 0 ==> !pairs_map(ps).contains_key(key),
    decreases ps.len(),
{
    if ps.len() > 0 {
        let p = ps.drop_last();
        if i < ps.len() - 1 {
            assert forall|j: int| i < j < p.len() implies (#[trigger] p[j]).0 != key by {
                assert(p[j] == ps[j]);
            }
            lemma_pairs_map_last(p, key, i);
            assert(ps.last() == ps[ps.len() - 1]);
            if i >= 0 {
                assert(p[i] == ps[i]);
            }
        }
    }
}

/// The parameters of a query string.
pub struct QueryParams {
    pairs: Vec<(String, String)>,
}

impl View for QueryParams {
    type V = Map<Seq<char>, Seq<char>>;

    closed spec fn view(&self) -> Map<Seq<char>, Seq<char>> {
        pairs_map(self.pairs@.map_values(|p: (String, String)| (p.0@, p.1@)))
    }
}

impl QueryParams {
    /// No parameters.
    pub fn new() -> (r: Self)
        ensures
            r@ == Map::<Seq<char>, Seq<char>>::empty(),
    {
        QueryParams { pairs: Vec::new() }
    }

    /// Sets `key` to `value`, in place of any value it had.
    pub fn insert(&mut self, key: String, value: String)
        ensures
            final(self)@ == old(self)@.insert(key@, value@),
    {
        let ghost before = self.pairs@;
        self.pairs.push((key, value));
        proof {
            let f = |p: (String, String)| (p.0@, p.1@);
            assert(self.pairs@.map_values(f).drop_last() =~= before.map_values(f));
        }
    }

    /// The value of `key`.
    pub fn get(&self, key: &str) -> (r: Option<&String>)
        ensures
            match r {
                Some(v) => self@.contains_key(key@) && v@ == self@[key@],
                None => !self@.contains_key(key@),
            },
    {
        let ghost views = self.pairs@.map_values(|p: (String, String)| (p.0@, p.1@));
        let wanted = String::from_str(key);
        let mut i: usize = self.pairs.len();
        while i > 0
            invariant
                i <= self.pairs@.len(),
                wanted@ == key@,
                views == self.pairs@.map_values(|p: (String, String)| (p.0@, p.1@)),
                forall|j: int| i <= j < views.len() ==> (#[trigger] views[j]).0 != key@,
            decreases i,
        {
            i = i - 1;
            assert(views[i as int] == (self.pairs@[i as int].0@, self.pairs@[i as int].1@));
            if self.pairs[i].0 == wanted {
                proof {
                    lemma_pairs_map_last(views, key@, i as int);
                }
                return Some(&self.pairs[i].1);
            }
        }
        proof {
            lemma_pairs_map_last(views, key@, -1);
        }
        None
    }
}

/// The value of the parameter `key`, if the query has it.
pub fn query_value(query: &QueryParams, key: &str) -> (r: Option<String>)
    ensures
        match r {
            Some(v) => query@.contains_key(key@) && v@ == query@[key@],
            None => !query@.contains_key(key@),
        },
{
    match query.get(key) {
        Some(v) => Some(v.clone()),
        None => None,
    }
}

/// A query piece cut into key and value (see `query_pair`).
fn piece_pair(piece: &Vec<char>) -> (r: (String, String))
    ensures
        (r.0@, r.1@) == query_pair(piece@),
{
    match find_char_in(piece, '=') {
        Some(i) => (string_from_chars(piece, 0, i), string_from_chars(piece, i + 1, piece.len())),
        None => (string_from_chars(piece, 0, piece.len()), String::new()),
    }
}

/// A request target cut into its path and its query parameters.
pub fn split_target(target: &str) -> (r: (String, QueryParams))
    ensures
        r.0@ == target_path(target@),
        r.1@ == parse_query(target_query(target@)),
{
    let cs = str_chars(target);
    let (path, query) = match find_char_in(&cs, '?') {
        Some(i) => {
            let mut rest: Vec<char> = Vec::new();
            let mut j = i + 1;
            while j < cs.len()
                invariant
                    i < j <= cs.len(),
                    rest@ == cs@.subrange(i + 1, j as int),
                decreases cs.len() - j,
            {
                rest.push(cs[j]);
                assert(cs@.subrange(i + 1, j + 1) =~= cs@.subrange(i + 1, j as int).push(
                    cs@[j as int],
                ));
                j = j + 1;
            }
            assert(rest@ =~= cs@.skip(i + 1));
            (string_from_chars(&cs, 0, i), rest)
        },
        None => (string_from_chars(&cs, 0, cs.len()), Vec::new()),
    };
    assert(cs@.subrange(0, cs@.len() as int) =~= cs@);
    let pieces = split_chars(&query, '&');
    let ghost piece_views = pieces.deep_view();
    let mut params = QueryParams::new();
    let mut k: usize = 0;
    assert(pieces.deep_view().take(0) =~= Seq::<Seq<char>>::empty());
    while k < pieces.len()
        invariant
            k <= pieces@.len(),
            piece_views == pieces.deep_view(),
            piece_views == split_at_sep(query@, '&'),
            params@ == pairs_map(query_pairs(piece_views.take(k as int))),
        decreases pieces@.len() - k,
    {
        assert(piece_views.take(k + 1).drop_last() =~= piece_views.take(k as int));
        assert(pieces@[k as int].deep_view() =~= pieces@[k as int]@);
        assert(piece_views[k as int] == pieces@[k as int].deep_view());
        assert(piece_views.take(k + 1).last() == piece_views[k as int]);
        let ghost prev = query_pairs(piece_views.take(k as int));
        if pieces[k].len() > 0 {
            let (key, value) = piece_pair(&pieces[k]);
            params.insert(key, value);
            assert(prev.push(query_pair(piece_views[k as int])).drop_last() =~= prev);
            assert(query_pairs(piece_views.take(k + 1)) == prev.push(
                query_pair(piece_views[k as int]),
            ));
        } else {
            assert(query_pairs(piece_views.take(k + 1)) == prev);
        }
        k = k + 1;
    }
    assert(piece_views.take(pieces@.len() as int) =~= piece_views);
    (path, params)
}

// ---------------------------------------------------------------------------
// Request lines and headers
// ---------------------------------------------------------------------------

/// The `i`-th of `ws`, or the empty text where there are fewer.
pub open spec fn word_or_empty(ws: Seq<Seq<char>>, i: int) -> Seq<char> {
    if 0 <= i < ws.len() {
        ws[i]
    } else {
        Seq::empty()
    }
}

/// The method and target of a request line: its first two words (empty
/// where missing), once trailing white space is cut; `None` for a line
/// that is empty then.
pub open spec fn request_line_parts(line: Seq<char>) -> Option<(Seq<char>, Seq<char>)> {
    let t = trim_end(line);
    if t.len() == 0 {
        None
    } else {
        Some((word_or_empty(words(t), 0), word_or_empty(words(t), 1)))
    }
}

/// The method and target of a request line (see `request_line_parts`).
pub fn parse_request_line(line: &str) -> (r: Option<(String, String)>)
    ensures
        match r {
            Some((m, t)) => request_line_parts(line@) == Some((m@, t@)),
            None => request_line_parts(line@) is None,
        },
{
    let cs = str_chars(line);
    let n = trim_end_len(&cs);
    if n == 0 {
        return None;
    }
    let ws = words_of(&cs, n);
    let ghost views = ws.deep_view();
    let method = if ws.len() > 0 {
        assert(ws@[0].deep_view() =~= ws@[0]@);
        assert(views[0] == ws@[0].deep_view());
        string_from_chars(&ws[0], 0, ws[0].len())
    } else {
        String::new()
    };
    let target = if ws.len() > 1 {
        assert(ws@[1].deep_view() =~= ws@[1]@);
        assert(views[1] == ws@[1].deep_view());
        string_from_chars(&ws[1], 0, ws[1].len())
    } else {
        String::new()
    };
    proof {
        if ws.len() > 0 {
            assert(ws@[0]@.subrange(0, ws@[0]@.len() as int) =~= ws@[0]@);
        }
        if ws.len() > 1 {
            assert(ws@[1]@.subrange(0, ws@[1]@.len() as int) =~= ws@[1]@);
        }
    }
    Some((method, target))
}

/// `c` with an ASCII capital letter made small.
pub open spec fn ascii_lower(c: char) -> char {
    if 'A' <= c <= 'Z' {
        ((c as u32) + 32) as char
    } else {
        c
    }
}

/// `a` and `b` are the same text but for the case of ASCII letters, as
/// `str::eq_ignore_ascii_case` decides.
pub open spec fn eq_ignore_ascii_case(a: Seq<char>, b: Seq<char>) -> bool {
    a.len() == b.len() && forall|i: int| 0 <= i < a.len() ==> ascii_lower(a[i]) == ascii_lower(
        b[i],
    )
}

fn to_ascii_lower(c: char) -> (r: char)
    ensures
        r == ascii_lower(c),
{
    if 'A' <= c && c <= 'Z' {
        ((c as u8) + 32) as char
    } else {
        c
    }
}

fn chars_eq_ignore_ascii_case(a: &Vec<char>, b: &Vec<char>) -> (r: bool)
    ensures
        r == eq_ignore_ascii_case(a@, b@),
{
    if a.len() != b.len() {
        return false;
    }
    let mut i: usize = 0;
    while i < a.len()
        invariant
            i <= a.len() == b.len(),
            forall|k: int| 0 <= k < i ==> ascii_lower(a@[k]) == ascii_lower(b@[k]),
        decreases a.len() - i,
    {
        if to_ascii_lower(a[i]) != to_ascii_lower(b[i]) {
            return false;
        }
        i = i + 1;
    }
    true
}

/// Whether `c` is an ASCII digit.
pub open spec fn is_digit(c: char) -> bool {
    '0' <= c <= '9'
}

/// Every character of `s` is an ASCII digit.
pub open spec fn all_digits(s: Seq<char>) -> bool {
    forall|i: int| 0 <= i < s.len() ==> is_digit(#[trigger] s[i])
}

/// The number the decimal digits `s` write.
pub open spec fn digits_value(s: Seq<char>) -> nat
    decreases s.len(),
{
    if s.len() == 0 {
        0
    } else {
        digits_value(s.drop_last()) * 10 + ((s.last() as u32) - 48) as nat
    }
}

/// What `str::parse::<usize>` makes of `s`: an optional `+`, then one or
/// more ASCII digits whose value fits in `usize`; `None` for anything else.
pub open spec fn parse_usize(s: Seq<char>) -> Option<nat> {
    let d = if s.len() > 0 && s[0] == '+' {
        s.drop_first()
    } else {
        s
    };
    if d.len() > 0 && all_digits(d) && digits_value(d) <= usize::MAX {
        Some(digits_value(d))
    } else {
        None
    }
}

/// The number `s[from..to]` writes in decimal (see `parse_usize`).
fn parse_usize_chars(s: &Vec<char>, from: usize, to: usize) -> (r: Option<usize>)
    requires
        from <= to <= s.len(),
    ensures
        match r {
            Some(v) => parse_usize(s@.subrange(from as int, to as int)) == Some(v as nat),
            None => parse_usize(s@.subrange(from as int, to as int)) is None,
        },
{
    let ghost t = s@.subrange(from as int, to as int);
    let start = if from < to && s[from] == '+' {
        from + 1
    } else {
        from
    };
    let ghost d = s@.subrange(start as int, to as int);
    assert(d =~= (if t.len() > 0 && t[0] == '+' {
        t.drop_first()
    } else {
        t
    }));
    if start == to {
        return None;
    }
    let mut value: usize = 0;
    let mut i = start;
    assert(s@.subrange(start as int, start as int) =~= Seq::<char>::empty());
    while i < to
        invariant
            start <= i <= to <= s.len(),
            t == s@.subrange(from as int, to as int),
            d == s@.subrange(start as int, to as int),
            d == (if t.len() > 0 && t[0] == '+' {
                t.drop_first()
            } else {
                t
            }),
            forall|k: int| start <= k < i ==> is_digit(s@[k]),
            value as nat == digits_value(s@.subrange(start as int, i as int)),
        decreases to - i,
    {
        let c = s[i];
        let ghost prefix = s@.subrange(start as int, i + 1);
        assert(prefix.drop_last() =~= s@.subrange(start as int, i as int));
        if !('0' <= c && c <= '9') {
            assert(d[i - start] == s@[i as int]);
            assert(!is_digit(d[i - start]));
            assert(!all_digits(d));
            return None;
        }
        let digit = (c as u32 - 48) as usize;
        if value > (usize::MAX - digit) / 10 {
            proof {
                assert(value * 10 + digit > usize::MAX) by (nonlinear_arith)
                    requires
                        value > (usize::MAX - digit) / 10,
                        digit <= 9,
                ;
                assert(digits_value(prefix) == value * 10 + digit);
                lemma_digits_value_grows(d, (i - start + 1) as int);
                assert(d.take(i - start + 1) =~= prefix);
            }
            return None;
        }
        value = value * 10 + digit;
        i = i + 1;
    }
    assert(s@.subrange(start as int, to as int) =~= d);
    Some(value)
}

/// Digits past a prefix only make the value larger.
proof fn lemma_digits_value_grows(d: Seq<char>, n: int)
    requires
        0 <= n <= d.len(),
    ensures
        digits_value(d.take(n)) <= digits_value(d),
    decreases d.len() - n,
{
    if n < d.len() {
        lemma_digits_value_grows(d, n + 1);
        assert(d.take(n + 1).drop_last() =~= d.take(n));
        assert(digits_value(d.take(n)) <= digits_value(d.take(n)) * 10 + ((d.take(n + 1).last()
            as u32) - 48) as nat) by (nonlinear_arith);
    } else {
        assert(d.take(n) =~= d);
    }
}

/// What a header line means to the server.
pub enum HeaderLine {
    /// The empty line (`\r\n`) that ends the headers.
    End,
    /// A `Content-Length` header, with the length it gives (0 where it
    /// gives no number).
    ContentLength(usize),
    /// Any other line.
    Other,
}

/// What the header line `line` means (see `HeaderLine`): the name before
/// the first `:` is compared without regard to ASCII case, and the value
/// after it is trimmed and read as a number.
pub open spec fn header_line_meaning(line: Seq<char>) -> HeaderLine {
    if line == "\r\n"@ {
        HeaderLine::End
    } else {
        match split_once(line, ':') {
            Some((name, value)) => if eq_ignore_ascii_case(name, "content-length"@) {
                HeaderLine::ContentLength(
                    match parse_usize(trim(value)) {
                        Some(v) => v as usize,
                        None => 0,
                    },
                )
            } else {
                HeaderLine::Other
            },
            None => HeaderLine::Other,
        }
    }
}

/// What the header line `line` means (see `header_line_meaning`).
pub fn parse_header_line(line: &str) -> (r: HeaderLine)
    ensures
        r == header_line_meaning(line@),
{
    if crate::text::str_eq(line, "\r\n") {
        return HeaderLine::End;
    }
    let cs = str_chars(line);
    match find_char_in(&cs, ':') {
        Some(i) => {
            let name: Vec<char> = str_chars(string_from_chars(&cs, 0, i).as_str());
            let wanted = str_chars("content-length");
            assert(name@ =~= cs@.take(i as int));
            if !chars_eq_ignore_ascii_case(&name, &wanted) {
                return HeaderLine::Other;
            }
            let value = str_chars(string_from_chars(&cs, i + 1, cs.len()).as_str());
            assert(value@ =~= cs@.skip(i + 1));
            let (a, b) = trim_bounds(&value);
            match parse_usize_chars(&value, a, b) {
                Some(v) => HeaderLine::ContentLength(v),
                None => HeaderLine::ContentLength(0),
            }
        },
        None => HeaderLine::Other,
    }
}

// ---------------------------------------------------------------------------
// Responses
// ---------------------------------------------------------------------------

/// The status line and headers of a response with status `status`, body
/// type `content_type` and a body of `body_len` bytes, up to and with the
/// empty line that ends them.
pub open spec fn response_head_text(status: Seq<char>, content_type: Seq<char>, body_len: nat) -> Seq<char> {
    "HTTP/1.1 "@ + status + "\r\nContent-Type: "@ + content_type + "\r\nContent-Length: "@
        + decimal(body_len)
        + "\r\nAccess-Control-Allow-Origin: *\r\nAccess-Control-Allow-Methods: GET, POST, OPTIONS\r\nAccess-Control-Allow-Headers: Content-Type\r\nConnection: close\r\n\r\n"@
}

/// The status line and headers of a response (see `response_head_text`).
pub fn response_head(status: &str, content_type: &str, body_len: usize) -> (r: String)
    ensures
        r@ == response_head_text(status@, content_type@, body_len as nat),
{
    let mut r = String::from_str("HTTP/1.1 ");
    r.append(status);
    r.append("\r\nContent-Type: ");
    r.append(content_type);
    r.append("\r\nContent-Length: ");
    push_decimal(body_len, &mut r);
    r.append(
        "\r\nAccess-Control-Allow-Origin: *\r\nAccess-Control-Allow-Methods: GET, POST, OPTIONS\r\nAccess-Control-Allow-Headers: Content-Type\r\nConnection: close\r\n\r\n",
    );
    r
}

} // verus!
