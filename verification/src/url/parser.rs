//! A single-pass decomposer for absolute URL strings of the form
//! `scheme://host[:port]/path[?query][#fragment]`.
//!
//! The parser walks the input left to right, consuming a prefix at each of
//! four steps (scheme, authority, path, query/fragment) and handing the
//! remainder to the next step. It either returns a structured [`Url`] or a
//! [`ParseError`] that classifies the failure and carries the offending input
//! verbatim; never both, never a partial result.

use vstd::prelude::*;

verus! {

/// The classified reasons an input fails to decompose.
#[derive(Debug, Clone, Copy, PartialEq, Eq, Structural)]
pub enum ErrorKind {
    /// No `"://"` occurs anywhere in the input.
    MissingScheme,
    /// No `/` follows the authority segment, so no path begins.
    MissingPathDelimiter,
    /// The text after `:` in the authority segment is not a `u32` port.
    InvalidPort,
}

/// A classified parse failure, carrying the original input verbatim for
/// diagnostics.
#[derive(Debug)]
pub struct ParseError {
    pub kind: ErrorKind,
    pub input: String,
}

/// A decomposed URL. `query` and `fragment` are stored without their leading
/// `?` and `#`; an empty query is recorded as absent.
#[derive(Debug)]
pub struct Url {
    pub scheme: String,
    pub host: String,
    pub port: Option<u32>,
    pub path: String,
    pub query: Option<String>,
    pub fragment: Option<String>,
}

/// The mathematical image of a [`Url`]: each textual component as a sequence
/// of characters.
pub struct UrlModel {
    pub scheme: Seq<char>,
    pub host: Seq<char>,
    pub port: Option<u32>,
    pub path: Seq<char>,
    pub query: Option<Seq<char>>,
    pub fragment: Option<Seq<char>>,
}

/// The view of an optional string: its character sequence, when present.
pub open spec fn opt_view(o: Option<String>) -> Option<Seq<char>> {
    match o {
        Some(s) => Some(s@),
        None => None,
    }
}

impl View for Url {
    type V = UrlModel;

    open spec fn view(&self) -> UrlModel {
        UrlModel {
            scheme: self.scheme@,
            host: self.host@,
            port: self.port,
            path: self.path@,
            query: opt_view(self.query),
            fragment: opt_view(self.fragment),
        }
    }
}

/// True when the three-character scheme separator `"://"` stands at index
/// `i` of `s`.
pub open spec fn sep_at(s: Seq<char>, i: int) -> bool {
    &&& 0 <= i
    &&& i + 3 <= s.len()
    &&& s[i] == ':'
    &&& s[i + 1] == '/'
    &&& s[i + 2] == '/'
}

/// The index of the first scheme separator at or after `i`, if any.
pub open spec fn first_sep_from(s: Seq<char>, i: int) -> Option<int>
    decreases s.len() - i,
{
    if i + 3 > s.len() {
        None
    } else if sep_at(s, i) {
        Some(i)
    } else {
        first_sep_from(s, i + 1)
    }
}

/// The index of the first scheme separator in `s`, if any.
pub open spec fn first_sep(s: Seq<char>) -> Option<int> {
    first_sep_from(s, 0)
}

/// The index of the first occurrence of `c` at or after `i`, if any.
pub open spec fn first_char_from(s: Seq<char>, c: char, i: int) -> Option<int>
    decreases s.len() - i,
{
    if i >= s.len() {
        None
    } else if s[i] == c {
        Some(i)
    } else {
        first_char_from(s, c, i + 1)
    }
}

/// The index of the first occurrence of `c` in `s`, if any.
pub open spec fn first_char(s: Seq<char>, c: char) -> Option<int> {
    first_char_from(s, c, 0)
}

/// Decimal digits.
pub open spec fn is_digit(c: char) -> bool {
    '0' <= c && c <= '9'
}

/// The numeric value of a decimal digit.
pub open spec fn digit_value(c: char) -> int {
    c as int - '0' as int
}

/// True when every character of `s` is a decimal digit.
pub open spec fn all_digits(s: Seq<char>) -> bool {
    forall|i: int| 0 <= i < s.len() ==> is_digit(#[trigger] s[i])
}

/// The numeric value of a sequence of decimal digits, most significant
/// first.
pub open spec fn dec_value(s: Seq<char>) -> int
    decreases s.len(),
{
    if s.len() == 0 {
        0
    } else {
        dec_value(s.drop_last()) * 10 + digit_value(s.last())
    }
}

/// The texts accepted as a port: non-empty, all decimal digits, and with a
/// value that fits in a `u32`.
pub open spec fn is_valid_port(s: Seq<char>) -> bool {
    s.len() > 0 && all_digits(s) && dec_value(s) <= u32::MAX
}

/// An empty query is recorded as absent, never as an empty present value.
pub open spec fn norm_query(q: Seq<char>) -> Option<Seq<char>> {
    if q.len() == 0 {
        None
    } else {
        Some(q)
    }
}

/// Splits the remainder that follows the authority segment into path, query
/// and fragment. The path runs to the first `?` (or, failing that, the first
/// `#`); a query runs from after its `?` to the first later `#`; a fragment
/// is everything after its `#`.
pub open spec fn split_tail(rem: Seq<char>) -> (Seq<char>, Option<Seq<char>>, Option<Seq<char>>) {
    match first_char(rem, '?') {
        Some(q) => {
            let path = rem.subrange(0, q);
            let after = rem.subrange(q, rem.len() as int);
            match first_char(after, '#') {
                Some(h) => (
                    path,
                    norm_query(after.subrange(1, h)),
                    Some(after.subrange(h + 1, after.len() as int)),
                ),
                None => (path, norm_query(after.subrange(1, after.len() as int)), None),
            }
        },
        None => match first_char(rem, '#') {
            Some(h) => (
                rem.subrange(0, h),
                None,
                Some(rem.subrange(h + 1, rem.len() as int)),
            ),
            None => (rem, None, None),
        },
    }
}

/// Decomposes the authority segment and the remainder into a full model, or
/// reports a bad port.
pub open spec fn parse_authority(
    scheme: Seq<char>,
    host_port: Seq<char>,
    rem: Seq<char>,
) -> Result<UrlModel, ErrorKind> {
    let (host, port) = match first_char(host_port, ':') {
        Some(c) => (host_port.subrange(0, c), Some(host_port.subrange(c + 1, host_port.len() as int))),
        None => (host_port, None),
    };
    match port {
        Some(t) => if is_valid_port(t) {
            Ok(model_of(scheme, host, Some((dec_value(t) as u32)), rem))
        } else {
            Err(ErrorKind::InvalidPort)
        },
        None => Ok(model_of(scheme, host, None, rem)),
    }
}

/// The model assembled from a scheme, a host, an optional port and the split
/// of the remainder.
pub open spec fn model_of(scheme: Seq<char>, host: Seq<char>, port: Option<u32>, rem: Seq<char>) -> UrlModel {
    let (path, query, fragment) = split_tail(rem);
    UrlModel { scheme: scheme, host: host, port: port, path: path, query: query, fragment: fragment }
}

/// What parsing an input denotes: the decomposed model, or the kind of
/// failure. The four steps of the algorithm read left to right: scheme up to
/// the first `"://"`, authority up to the first following `/`, then path,
/// query and fragment out of the remainder.
pub open spec fn spec_parse(s: Seq<char>) -> Result<UrlModel, ErrorKind> {
    match first_sep(s) {
        None => Err(ErrorKind::MissingScheme),
        Some(p) => {
            let scheme = s.subrange(0, p);
            let rest = s.subrange(p + 3, s.len() as int);
            match first_char(rest, '/') {
                None => Err(ErrorKind::MissingPathDelimiter),
                Some(sl) => parse_authority(
                    scheme,
                    rest.subrange(0, sl),
                    rest.subrange(sl, rest.len() as int),
                ),
            }
        },
    }
}

/// What `first_sep_from` returns is exactly the earliest separator position
/// at or after `i`.
proof fn lemma_first_sep_from_props(s: Seq<char>, i: int)
    requires
        0 <= i,
    ensures
        match first_sep_from(s, i) {
            Some(j) => i <= j && sep_at(s, j) && (forall|k: int| i <= k < j ==> !sep_at(s, k)),
            None => forall|k: int| i <= k ==> !sep_at(s, k),
        },
    decreases s.len() - i,
{
    if i + 3 > s.len() {
    } else if sep_at(s, i) {
    } else {
        lemma_first_sep_from_props(s, i + 1);
    }
}

/// What `first_char_from` returns is exactly the earliest occurrence of `c`
/// at or after `i`.
proof fn lemma_first_char_from_props(s: Seq<char>, c: char, i: int)
    requires
        0 <= i,
    ensures
        match first_char_from(s, c, i) {
            Some(j) => i <= j < s.len() && s[j] == c && (forall|k: int| i <= k < j ==> s[k] != c),
            None => forall|k: int| i <= k < s.len() ==> s[k] != c,
        },
    decreases s.len() - i,
{
    if i >= s.len() {
    } else if s[i] == c {
    } else {
        lemma_first_char_from_props(s, c, i + 1);
    }
}

/// Finds the first scheme separator `"://"` in `s`.
fn find_sep(s: &str) -> (r: Option<usize>)
    ensures
        match r {
            Some(i) => first_sep(s@) == Some(i as int),
            None => first_sep(s@) is None,
        },
{
    let n = s.unicode_len();
    if n < 3 {
        return None;
    }
    let mut i: usize = 0;
    while i <= n - 3
        invariant
            3 <= n == s@.len(),
            i <= n - 2,
            first_sep(s@) == first_sep_from(s@, i as int),
        decreases n - i,
    {
        if s.get_char(i) == ':' && s.get_char(i + 1) == '/' && s.get_char(i + 2) == '/' {
            assert(sep_at(s@, i as int));
            return Some(i);
        }
        assert(!sep_at(s@, i as int));
        assert(first_sep_from(s@, i as int) == first_sep_from(s@, i + 1 as int));
        i = i + 1;
    }
    assert(first_sep_from(s@, i as int) is None);
    None
}

/// Finds the first occurrence of `c` in `s`.
fn find_char(s: &str, c: char) -> (r: Option<usize>)
    ensures
        match r {
            Some(i) => first_char(s@, c) == Some(i as int),
            None => first_char(s@, c) is None,
        },
{
    let n = s.unicode_len();
    let mut i: usize = 0;
    while i < n
        invariant
            n == s@.len(),
            i <= n,
            first_char(s@, c) == first_char_from(s@, c, i as int),
        decreases n - i,
    {
        if s.get_char(i) == c {
            return Some(i);
        }
        i = i + 1;
    }
    None
}

/// On an all-digit sequence the value is never negative.
proof fn lemma_dec_value_nonneg(s: Seq<char>)
    requires
        all_digits(s),
    ensures
        dec_value(s) >= 0,
    decreases s.len(),
{
    if s.len() > 0 {
        assert(forall|i: int| 0 <= i < s.drop_last().len() ==> is_digit(#[trigger] s.drop_last()[i]));
        lemma_dec_value_nonneg(s.drop_last());
    }
}

/// On an all-digit sequence, the value of a prefix never exceeds the value
/// of the whole: each further digit multiplies by ten and adds.
proof fn lemma_dec_value_prefix_le(s: Seq<char>, k: int)
    requires
        0 <= k <= s.len(),
        all_digits(s),
    ensures
        dec_value(s.subrange(0, k)) <= dec_value(s),
    decreases s.len() - k,
{
    if k == s.len() {
        assert(s.subrange(0, k) =~= s);
    } else {
        lemma_dec_value_prefix_le(s, k + 1);
        let t = s.subrange(0, k + 1);
        assert(t.drop_last() =~= s.subrange(0, k));
        assert(forall|i: int| 0 <= i < s.subrange(0, k).len() ==> is_digit(#[trigger] s.subrange(0, k)[i]));
        lemma_dec_value_nonneg(s.subrange(0, k));
        assert(dec_value(t) == dec_value(s.subrange(0, k)) * 10 + digit_value(s[k]));
    }
}

/// Parses a non-empty string of decimal digits as a `u32`, exactly when it
/// is one.
fn parse_port(s: &str) -> (r: Option<u32>)
    ensures
        is_valid_port(s@) ==> r == Some((dec_value(s@) as u32)),
        !is_valid_port(s@) ==> r is None,
{
    let n = s.unicode_len();
    if n == 0 {
        return None;
    }
    let mut val: u32 = 0;
    let mut i: usize = 0;
    while i < n
        invariant
            n == s@.len(),
            i <= n,
            all_digits(s@.subrange(0, i as int)),
            val == dec_value(s@.subrange(0, i as int)),
        decreases n - i,
    {
        let c = s.get_char(i);
        let cv = c as u32;
        if cv < 48 || cv > 57 {
            assert(!is_digit(s@[i as int]));
            return None;
        }
        let d: u32 = cv - 48;
        let wide: u64 = (val as u64) * 10 + (d as u64);
        proof {
            let t = s@.subrange(0, i + 1 as int);
            assert(t.drop_last() =~= s@.subrange(0, i as int));
            assert(t.last() == s@[i as int]);
            assert(all_digits(t));
            assert(dec_value(t) == wide);
        }
        if wide > 0xFFFF_FFFF {
            proof {
                if is_valid_port(s@) {
                    lemma_dec_value_prefix_le(s@, i + 1 as int);
                }
            }
            return None;
        }
        val = wide as u32;
        i = i + 1;
    }
    proof {
        assert(s@.subrange(0, n as int) =~= s@);
    }
    Some(val)
}

/// If position `p` carries a separator and no earlier position does, it is
/// the first.
proof fn lemma_first_sep_is(s: Seq<char>, p: int)
    requires
        sep_at(s, p),
        forall|k: int| 0 <= k < p ==> !sep_at(s, k),
    ensures
        first_sep(s) == Some(p),
{
    lemma_first_sep_from_props(s, 0);
}

/// If position `p` carries `c` and no earlier position does, it is the
/// first.
proof fn lemma_first_char_is(s: Seq<char>, c: char, p: int)
    requires
        0 <= p < s.len(),
        s[p] == c,
        forall|k: int| 0 <= k < p ==> s[k] != c,
    ensures
        first_char(s, c) == Some(p),
{
    lemma_first_char_from_props(s, c, 0);
}

/// A character that occurs nowhere in `s` is not found.
proof fn lemma_first_char_none(s: Seq<char>, c: char)
    requires
        forall|k: int| 0 <= k < s.len() ==> s[k] != c,
    ensures
        first_char(s, c) is None,
{
    lemma_first_char_from_props(s, c, 0);
}

/// An optional component together with the delimiter that introduces it;
/// empty when absent.
pub open spec fn opt_delim(d: char, t: Option<Seq<char>>) -> Seq<char> {
    match t {
        Some(x) => seq![d] + x,
        None => Seq::<char>::empty(),
    }
}

/// The text a set of components denotes: the components joined by their
/// delimiters, `scheme://host[:port]path[?query][#fragment]` (the leading
/// `/` of the path is part of the path component).
pub open spec fn assemble(
    scheme: Seq<char>,
    host: Seq<char>,
    port_text: Option<Seq<char>>,
    path: Seq<char>,
    query: Option<Seq<char>>,
    fragment: Option<Seq<char>>,
) -> Seq<char> {
    scheme + seq![':', '/', '/'] + host + opt_delim(':', port_text) + path + opt_delim(
        '?',
        query,
    ) + opt_delim('#', fragment)
}

/// Components from which parsing recovers each piece exactly: the scheme
/// holds no separator of its own, the host no `:` or `/`, the port text is a
/// valid port, the path begins with `/` and holds no `?` or `#`, a present
/// query is non-empty and holds no `#`, and a fragment holds no `?` unless a
/// query stands before it.
pub open spec fn components_well_formed(
    scheme: Seq<char>,
    host: Seq<char>,
    port_text: Option<Seq<char>>,
    path: Seq<char>,
    query: Option<Seq<char>>,
    fragment: Option<Seq<char>>,
) -> bool {
    &&& forall|j: int| !sep_at(scheme, j)
    &&& forall|i: int| 0 <= i < host.len() ==> host[i] != ':' && host[i] != '/'
    &&& match port_text {
        Some(t) => is_valid_port(t),
        None => true,
    }
    &&& path.len() > 0
    &&& path[0] == '/'
    &&& forall|i: int| 0 <= i < path.len() ==> path[i] != '?' && path[i] != '#'
    &&& match query {
        Some(q) => q.len() > 0 && (forall|i: int| 0 <= i < q.len() ==> q[i] != '#'),
        None => true,
    }
    &&& match (query, fragment) {
        (None, Some(f)) => forall|i: int| 0 <= i < f.len() ==> f[i] != '?',
        _ => true,
    }
}

/// In a host-and-port segment whose host holds no `:`, the first `:` is the
/// one before the digits, and the two sides come back out of it unchanged.
proof fn lemma_split_host_port(host: Seq<char>, t: Seq<char>)
    requires
        forall|i: int| 0 <= i < host.len() ==> host[i] != ':',
        all_digits(t),
    ensures
        ({
            let hp = host + seq![':'] + t;
            &&& first_char(hp, ':') == Some(host.len() as int)
            &&& hp.subrange(0, host.len() as int) == host
            &&& hp.subrange(host.len() as int + 1, hp.len() as int) == t
        }),
{
    let hp = host + seq![':'] + t;
    let hl = host.len() as int;
    assert(hp[hl] == ':');
    assert forall|k: int| 0 <= k < hl implies hp[k] != ':' by {
        assert(hp[k] == host[k]);
    }
    lemma_first_char_is(hp, ':', hl);
    assert(hp.subrange(0, hl) =~= host);
    assert forall|i: int| 0 <= i < t.len() implies hp.subrange(hl + 1, hp.len() as int)[i] == t[i] by {
        assert(hp[hl + 1 + i] == t[i]);
    }
    assert(hp.subrange(hl + 1, hp.len() as int) =~= t);
}

/// Splitting the remainder assembled from a path, an optional query and an
/// optional fragment gives the three back, provided the path holds no `?` or
/// `#`, a present query is non-empty and holds no `#`, and a fragment holds
/// no `?` unless a query stands before it.
proof fn lemma_rt_tail(path: Seq<char>, query: Option<Seq<char>>, fragment: Option<Seq<char>>)
    requires
        forall|i: int| 0 <= i < path.len() ==> path[i] != '?' && path[i] != '#',
        match query {
            Some(q) => q.len() > 0 && (forall|i: int| 0 <= i < q.len() ==> q[i] != '#'),
            None => true,
        },
        match (query, fragment) {
            (None, Some(f)) => forall|i: int| 0 <= i < f.len() ==> f[i] != '?',
            _ => true,
        },
    ensures
        split_tail(path + opt_delim('?', query) + opt_delim('#', fragment)) == (
            path,
            query,
            fragment,
        ),
{
    let qp = opt_delim('?', query);
    let fp = opt_delim('#', fragment);
    let rem = path + qp + fp;
    let plen = path.len() as int;
    match query {
        Some(q) => {
            assert(rem[plen] == '?');
            assert forall|k: int| 0 <= k < plen implies rem[k] != '?' by {
                assert(rem[k] == path[k]);
            }
            lemma_first_char_is(rem, '?', plen);
            assert(rem.subrange(0, plen) =~= path);
            let after = rem.subrange(plen, rem.len() as int);
            assert forall|i: int| 0 <= i < after.len() implies after[i] == (qp + fp)[i] by {
                assert(after[i] == rem[plen + i]);
            }
            assert(after =~= qp + fp);
            let h = 1 + q.len() as int;
            assert forall|k: int| 0 <= k < h implies after[k] != '#' by {
                if k == 0 {
                    assert(after[0] == '?');
                } else {
                    assert(after[k] == q[k - 1]);
                }
            }
            match fragment {
                Some(f) => {
                    assert(after[h] == '#');
                    lemma_first_char_is(after, '#', h);
                    assert forall|i: int| 0 <= i < q.len() implies after.subrange(1, h)[i] == q[i] by {
                        assert(after[1 + i] == q[i]);
                    }
                    assert(after.subrange(1, h) =~= q);
                    assert forall|i: int|
                        0 <= i < f.len() implies after.subrange(h + 1, after.len() as int)[i] == f[i] by {
                        assert(after[h + 1 + i] == f[i]);
                    }
                    assert(after.subrange(h + 1, after.len() as int) =~= f);
                },
                None => {
                    assert(after.len() == h);
                    lemma_first_char_none(after, '#');
                    assert forall|i: int|
                        0 <= i < q.len() implies after.subrange(1, after.len() as int)[i] == q[i] by {
                        assert(after[1 + i] == q[i]);
                    }
                    assert(after.subrange(1, after.len() as int) =~= q);
                },
            }
        },
        None => {
            match fragment {
                Some(f) => {
                    assert forall|k: int| 0 <= k < rem.len() implies rem[k] != '?' by {
                        if k < plen {
                            assert(rem[k] == path[k]);
                        } else if k == plen {
                            assert(rem[k] == '#');
                        } else {
                            assert(rem[k] == f[k - plen - 1]);
                        }
                    }
                    lemma_first_char_none(rem, '?');
                    assert(rem[plen] == '#');
                    assert forall|k: int| 0 <= k < plen implies rem[k] != '#' by {
                        assert(rem[k] == path[k]);
                    }
                    lemma_first_char_is(rem, '#', plen);
                    assert(rem.subrange(0, plen) =~= path);
                    assert forall|i: int|
                        0 <= i < f.len() implies rem.subrange(plen + 1, rem.len() as int)[i] == f[i] by {
                        assert(rem[plen + 1 + i] == f[i]);
                    }
                    assert(rem.subrange(plen + 1, rem.len() as int) =~= f);
                },
                None => {
                    assert(rem =~= path);
                    assert forall|k: int| 0 <= k < rem.len() implies rem[k] != '?' && rem[k] != '#' by {
                        assert(rem[k] == path[k]);
                    }
                    lemma_first_char_none(rem, '?');
                    lemma_first_char_none(rem, '#');
                },
            }
        },
    }
}

/// Round trip: parsing a text assembled from well-formed components yields
/// exactly those components back, with the port read as its numeric value
/// and the query and fragment stored without their leading delimiters.
pub proof fn lemma_parse_round_trip(
    scheme: Seq<char>,
    host: Seq<char>,
    port_text: Option<Seq<char>>,
    path: Seq<char>,
    query: Option<Seq<char>>,
    fragment: Option<Seq<char>>,
)
    requires
        components_well_formed(scheme, host, port_text, path, query, fragment),
    ensures
        spec_parse(assemble(scheme, host, port_text, path, query, fragment)) == Ok::<
            UrlModel,
            ErrorKind,
        >(
            UrlModel {
                scheme: scheme,
                host: host,
                port: match port_text {
                    Some(t) => Some((dec_value(t) as u32)),
                    None => None,
                },
                path: path,
                query: query,
                fragment: fragment,
            },
        ),
{
    let sep3 = seq![':', '/', '/'];
    let pp = opt_delim(':', port_text);
    let qp = opt_delim('?', query);
    let fp = opt_delim('#', fragment);
    let a = assemble(scheme, host, port_text, path, query, fragment);
    let slen = scheme.len() as int;
    let hp = host + pp;
    let hplen = hp.len() as int;
    let rem = path + qp + fp;

    // The separator written after the scheme is the first in the text.
    assert(a[slen] == ':');
    assert(a[slen + 1] == '/');
    assert(a[slen + 2] == '/');
    assert(sep_at(a, slen));
    assert forall|k: int| 0 <= k < slen implies !sep_at(a, k) by {
        if sep_at(a, k) {
            if k + 3 <= slen {
                assert(a[k] == scheme[k]);
                assert(a[k + 1] == scheme[k + 1]);
                assert(a[k + 2] == scheme[k + 2]);
                assert(sep_at(scheme, k));
            } else if k == slen - 2 {
                assert(a[k + 2] == ':');
            } else {
                assert(a[k + 1] == ':');
            }
        }
    }
    lemma_first_sep_is(a, slen);
    assert(a.subrange(0, slen) =~= scheme);

    // The rest is the authority segment followed by the remainder.
    let rest = a.subrange(slen + 3, a.len() as int);
    assert forall|i: int| 0 <= i < rest.len() implies rest[i] == (hp + rem)[i] by {
        assert(rest[i] == a[slen + 3 + i]);
        if i < host.len() {
            assert(a[slen + 3 + i] == host[i]);
            assert((hp + rem)[i] == host[i]);
        } else if i < hplen {
            assert(a[slen + 3 + i] == pp[i - host.len()]);
            assert((hp + rem)[i] == pp[i - host.len()]);
        } else if i < hplen + path.len() {
            assert(a[slen + 3 + i] == path[i - hplen]);
            assert((hp + rem)[i] == path[i - hplen]);
        } else if i < hplen + path.len() + qp.len() {
            assert(a[slen + 3 + i] == qp[i - hplen - path.len()]);
            assert((hp + rem)[i] == qp[i - hplen - path.len()]);
        } else {
            assert(a[slen + 3 + i] == fp[i - hplen - path.len() - qp.len()]);
            assert((hp + rem)[i] == fp[i - hplen - path.len() - qp.len()]);
        }
    }
    assert(rest =~= hp + rem);

    // No '/' stands before the one that begins the path.
    let digits_ok = match port_text {
        Some(t) => all_digits(t),
        None => true,
    };
    assert(digits_ok);
    assert(rest[hplen] == path[0]);
    assert forall|k: int| 0 <= k < hplen implies rest[k] != '/' by {
        if k < host.len() {
            assert(rest[k] == host[k]);
        } else if k == host.len() {
            assert(rest[k] == ':');
        } else {
            let t = port_text->Some_0;
            assert(rest[k] == t[k - host.len() - 1]);
            assert(is_digit(t[k - host.len() - 1]));
        }
    }
    lemma_first_char_is(rest, '/', hplen);
    assert(rest.subrange(0, hplen) =~= hp);
    assert forall|i: int|
        0 <= i < rem.len() implies rest.subrange(hplen, rest.len() as int)[i] == rem[i] by {
        assert(rest[hplen + i] == rem[i]);
    }
    assert(rest.subrange(hplen, rest.len() as int) =~= rem);

    // The authority segment splits at its first ':', when a port is there.
    match port_text {
        Some(t) => {
            assert(hp =~= host + seq![':'] + t);
            lemma_split_host_port(host, t);
            lemma_dec_value_nonneg(t);
        },
        None => {
            assert(hp =~= host);
            lemma_first_char_none(hp, ':');
        },
    }

    // The remainder splits back into path, query and fragment.
    lemma_rt_tail(path, query, fragment);
}

/// Parsing is deterministic: the outcome is a function of the input text
/// alone, so parsing the same text twice yields equal outcomes.
pub proof fn lemma_parse_deterministic(s1: Seq<char>, s2: Seq<char>)
    requires
        s1 == s2,
    ensures
        spec_parse(s1) == spec_parse(s2),
{
}

/// Splits the remainder that follows the authority segment into path, query
/// and fragment strings, as [`split_tail`] says.
fn split_tail_str(rem: &str) -> (r: (String, Option<String>, Option<String>))
    ensures
        ({
            let (p, q, f) = split_tail(rem@);
            r.0@ == p && opt_view(r.1) == q && opt_view(r.2) == f
        }),
{
    let m = rem.unicode_len();
    match find_char(rem, '?') {
        Some(qpos) => {
            proof {
                lemma_first_char_from_props(rem@, '?', 0);
            }
            let path = rem.substring_char(0, qpos);
            let after = rem.substring_char(qpos, m);
            let alen = after.unicode_len();
            match find_char(after, '#') {
                Some(h) => {
                    proof {
                        lemma_first_char_from_props(after@, '#', 0);
                        assert(after@[0] == '?');
                    }
                    let qt = after.substring_char(1, h);
                    let fr = after.substring_char(h + 1, alen);
                    let query = if qt.is_empty() {
                        None
                    } else {
                        Some(qt.to_owned())
                    };
                    (path.to_owned(), query, Some(fr.to_owned()))
                },
                None => {
                    let qt = after.substring_char(1, alen);
                    let query = if qt.is_empty() {
                        None
                    } else {
                        Some(qt.to_owned())
                    };
                    (path.to_owned(), query, None)
                },
            }
        },
        None => match find_char(rem, '#') {
            Some(h) => {
                proof {
                    lemma_first_char_from_props(rem@, '#', 0);
                }
                let path = rem.substring_char(0, h);
                let fr = rem.substring_char(h + 1, m);
                (path.to_owned(), None, Some(fr.to_owned()))
            },
            None => (rem.to_owned(), None, None),
        },
    }
}

/// Decomposes an absolute URL of the form
/// `scheme://host[:port]/path[?query][#fragment]`.
///
/// Returns the structured value exactly when the model parse of the input
/// succeeds, and the classified failure, carrying the input verbatim,
/// exactly when it does not. Deterministic, with no side effect: the outcome
/// is a function of the input text alone.
pub fn parse_url(input: &str) -> (r: Result<Url, ParseError>)
    ensures
        match r {
            Ok(u) => spec_parse(input@) == Ok::<UrlModel, ErrorKind>(u@),
            Err(e) => spec_parse(input@) == Err::<UrlModel, ErrorKind>(e.kind) && e.input@
                == input@,
        },
{
    let n = input.unicode_len();
    let sep = match find_sep(input) {
        Some(p) => p,
        None => {
            return Err(ParseError { kind: ErrorKind::MissingScheme, input: input.to_owned() });
        },
    };
    proof {
        lemma_first_sep_from_props(input@, 0);
    }
    let scheme = input.substring_char(0, sep);
    let rest = input.substring_char(sep + 3, n);
    let rest_len = rest.unicode_len();
    let slash = match find_char(rest, '/') {
        Some(sl) => sl,
        None => {
            return Err(ParseError {
                kind: ErrorKind::MissingPathDelimiter,
                input: input.to_owned(),
            });
        },
    };
    proof {
        lemma_first_char_from_props(rest@, '/', 0);
    }
    let host_port = rest.substring_char(0, slash);
    let rem = rest.substring_char(slash, rest_len);
    let hp_len = host_port.unicode_len();
    let (host, port) = match find_char(host_port, ':') {
        Some(c) => {
            proof {
                lemma_first_char_from_props(host_port@, ':', 0);
            }
            let host = host_port.substring_char(0, c);
            let port_text = host_port.substring_char(c + 1, hp_len);
            match parse_port(port_text) {
                Some(v) => (host, Some(v)),
                None => {
                    return Err(ParseError {
                        kind: ErrorKind::InvalidPort,
                        input: input.to_owned(),
                    });
                },
            }
        },
        None => (host_port, None),
    };
    let (path, query, fragment) = split_tail_str(rem);
    Ok(Url {
        scheme: scheme.to_owned(),
        host: host.to_owned(),
        port: port,
        path: path,
        query: query,
        fragment: fragment,
    })
}

} // verus!
