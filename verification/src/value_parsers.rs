//! Parsers of command-line values: `key=value` pairs, and the recognition of
//! a value as a URL or as a `host:port` socket address.
use vstd::prelude::*;
use crate::text::{chars_of, string_of, first_index, is_first_index};

verus! {

#[verifier::external_type_specification]
#[verifier::external_body]
pub struct ExUrl(url::Url);

/// A value that is not a `key=value` pair.
#[derive(Debug)]
pub struct KeyValueError {
    /// The value that was parsed.
    pub input: String,
}

/// The message of a `KeyValueError`.
pub open spec fn key_value_error_message(input: Seq<char>) -> Seq<char> {
    "invalid key=value pair: no `=` found in `"@ + input + "`"@
}

impl KeyValueError {
    /// ``invalid key=value pair: no `=` found in `<input>` ``
    pub fn message(&self) -> (r: String)
        ensures
            r@ == key_value_error_message(self.input@),
    {
        let mut r = String::from_str("invalid key=value pair: no `=` found in `");
        r.append(self.input.as_str());
        r.append("`");
        r
    }
}

/// Splits a `key=value` pair at its first `=`; the key and the value are
/// returned as text, for the caller to parse.
pub fn split_key_val(s: &str) -> (r: Result<(String, String), KeyValueError>)
    ensures
        r is Ok <==> s@.contains('='),
        r matches Ok((k, v)) ==> exists|i: int|
            is_first_index(s@, '=', i) && k@ == s@.subrange(0, i) && v@ == s@.subrange(
                i + 1,
                s@.len() as int,
            ),
        r matches Err(e) ==> e.input@ == s@,
        r matches Ok((k, v)) ==> k@ + seq!['='] + v@ == s@ && !k@.contains('='),
{
    let t = chars_of(s);
    match first_index(&t, '=') {
        Some(i) => {
            let n = t.len();
            let k = string_of(&t, 0, i);
            let v = string_of(&t, i + 1, n);
            assert(k@ + seq!['='] + v@ =~= s@);
            Ok((k, v))
        },
        None => Err(KeyValueError { input: s.to_owned() }),
    }
}

/// The serialization of the URL that `url::Url::parse` makes of the text,
/// or `None` when the text does not parse.
pub uninterp spec fn parsed_url(input: Seq<char>) -> Option<Seq<char>>;

/// The text of an optional URL.
pub open spec fn url_text(u: Option<String>) -> Option<Seq<char>> {
    match u {
        Some(s) => Some(s@),
        None => None,
    }
}

/// `url::Url::parse`, its error dropped and the URL returned as its
/// serialization (`String::from(Url)`): the text that `parsed_url` names.
#[verifier::external_body]
fn parse_url(input: &str) -> (r: Option<String>)
    ensures
        url_text(r) == parsed_url(input@),
{
    match url::Url::parse(input) {
        Ok(u) => Some(String::from(u)),
        Err(_) => None,
    }
}

/// What `value.split('/').next()` yields: the text before the first `/`, or
/// all of it.
pub open spec fn first_segment(s: Seq<char>) -> Seq<char> {
    if s.contains('/') {
        let i = choose|i: int| is_first_index(s, '/', i);
        s.subrange(0, i)
    } else {
        s
    }
}

/// The part of a value before its first `/`: all of the value when it holds
/// no `/`; else a prefix of the value that holds no `/` and is followed in
/// the value by a `/`.
pub proof fn law_first_segment(s: Seq<char>)
    ensures
        !s.contains('/') ==> first_segment(s) == s,
        first_segment(s).len() <= s.len(),
        first_segment(s) == s.subrange(0, first_segment(s).len() as int),
        !first_segment(s).contains('/'),
        s.contains('/') ==> first_segment(s).len() < s.len() && s[first_segment(s).len() as int]
            == '/',
{
    if s.contains('/') {
        let k = choose|k: int| 0 <= k < s.len() && s[k] == '/';
        assert(exists|i: int| is_first_index(s, '/', i)) by {
            let i = crate::text::lemma_first_index_exists(s, '/', k);
            assert(is_first_index(s, '/', i));
        }
        let i = choose|i: int| is_first_index(s, '/', i);
        let seg = s.subrange(0, i);
        assert(seg.subrange(0, seg.len() as int) =~= seg);
        assert(s.subrange(0, i) =~= seg);
        assert forall|j: int| 0 <= j < seg.len() implies seg[j] != '/' by {
            assert(seg[j] == s[j]);
        }
    } else {
        assert(s.subrange(0, s.len() as int) =~= s);
    }
}

/// How a value can be read as a URL.
pub enum UrlCandidate {
    /// The value is a URL, held here as its serialization.
    Parsed(String),
    /// The value is no URL, but its part before the first `/` (held here)
    /// holds a `:` and may be a `host:port` address.
    SocketAddress(String),
    /// The value can be no URL.
    NotUrl,
}

/// Classifies a value as a URL, a possible socket address, or neither.
pub fn classify_url(value: &str) -> (r: UrlCandidate)
    ensures
        r is Parsed <==> parsed_url(value@) is Some,
        r matches UrlCandidate::Parsed(u) ==> parsed_url(value@) == Some(u@),
        parsed_url(value@) is None ==> (r is SocketAddress <==> first_segment(value@).contains(':')),
        r matches UrlCandidate::SocketAddress(seg) ==> seg@ == first_segment(value@),
{
    if let Some(url) = parse_url(value) {
        return UrlCandidate::Parsed(url);
    }
    let t = chars_of(value);
    let end = match first_index(&t, '/') {
        Some(i) => {
            proof {
                let j = choose|j: int| is_first_index(t@, '/', j);
                assert(j == i);
            }
            i
        },
        None => {
            assert(t@.subrange(0, t@.len() as int) =~= t@);
            t.len()
        },
    };
    let seg = string_of(&t, 0, end);
    assert(seg@ == first_segment(value@));
    let mut k: usize = 0;
    while k < end
        invariant
            end <= t@.len(),
            k <= end,
            seg@ == t@.subrange(0, end as int),
            seg@ == first_segment(value@),
            parsed_url(value@) is None,
            forall|j: int| 0 <= j < k ==> seg@[j] != ':',
        decreases end - k,
    {
        if t[k] == ':' {
            assert(seg@[k as int] == ':');
            return UrlCandidate::SocketAddress(seg);
        }
        k = k + 1;
    }
    assert(!seg@.contains(':'));
    UrlCandidate::NotUrl
}

/// The text that reads `value` as the address part of an `http://` URL.
pub open spec fn http_address(value: Seq<char>) -> Seq<char> {
    "http://"@ + value
}

/// `value` read as the address part of an `http://` URL: the serialization of
/// that URL, or `None` when it does not parse.
pub fn socket_address_url(value: &str) -> (r: Option<String>)
    ensures
        url_text(r) == parsed_url(http_address(value@)),
{
    let mut uri = String::from_str("http://");
    uri.append(value);
    parse_url(uri.as_str())
}

/// The URL that a value stands for, given how it was classified and whether
/// the hostname parser accepts its socket-address part: the value's own URL,
/// else the `http://` URL of a socket address that the hostname parser
/// accepts, else none.
pub open spec fn resolved_url(
    value: Seq<char>,
    candidate: UrlCandidate,
    hostname_ok: bool,
) -> Option<Seq<char>> {
    match candidate {
        UrlCandidate::Parsed(u) => Some(u@),
        UrlCandidate::SocketAddress(_) => if hostname_ok {
            parsed_url(http_address(value))
        } else {
            None
        },
        UrlCandidate::NotUrl => None,
    }
}

/// Finishes reading `value` as a URL, from its classification and the
/// verdict of the hostname parser on its socket-address part.
pub fn resolve_url(value: &str, candidate: UrlCandidate, hostname_ok: bool) -> (r: Option<String>)
    ensures
        url_text(r) == resolved_url(value@, candidate, hostname_ok),
{
    match candidate {
        UrlCandidate::Parsed(u) => Some(u),
        UrlCandidate::SocketAddress(_) => if hostname_ok {
            socket_address_url(value)
        } else {
            None
        },
        UrlCandidate::NotUrl => None,
    }
}

/// How the contents of a value are read: a URL is downloaded, else an
/// existing path is read, else the value cannot be resolved.
pub enum ValueSource {
    Download(url::Url),
    ReadFile,
    Unresolved,
}

/// Chooses how to read a value, given what the value reads as a URL and
/// whether a file exists at the value taken as a path.
pub fn value_source(url: Option<url::Url>, path_exists: bool) -> (r: ValueSource)
    ensures
        r is Download <==> url is Some,
        url matches Some(u) ==> r == ValueSource::Download(u),
        r is ReadFile <==> url is None && path_exists,
        r is Unresolved <==> url is None && !path_exists,
{
    match url {
        Some(u) => ValueSource::Download(u),
        None => if path_exists {
            ValueSource::ReadFile
        } else {
            ValueSource::Unresolved
        },
    }
}

/// Why a value could not be read.
#[derive(Debug, PartialEq, Eq)]
pub enum ValueError {
    /// The value is neither a URL nor an existing path.
    NotPathOrUrl(String),
    /// The value is neither a URL, an existing path, nor inline configuration.
    NotPathUrlOrConfig(String),
}

/// The message of a `ValueError`.
pub open spec fn value_error_message(e: ValueError) -> Seq<char> {
    match e {
        ValueError::NotPathOrUrl(v) => "Couldn't parse value '"@ + v@ + "' as a path or URL"@,
        ValueError::NotPathUrlOrConfig(v) => "Failed to parse value "@ + v@
            + " as a path, URL or inline configuration"@,
    }
}

impl ValueError {
    pub fn message(&self) -> (r: String)
        ensures
            r@ == value_error_message(*self),
    {
        match self {
            ValueError::NotPathOrUrl(v) => {
                let mut r = String::from_str("Couldn't parse value '");
                r.append(v.as_str());
                r.append("' as a path or URL");
                r
            },
            ValueError::NotPathUrlOrConfig(v) => {
                let mut r = String::from_str("Failed to parse value ");
                r.append(v.as_str());
                r.append(" as a path, URL or inline configuration");
                r
            },
        }
    }
}

/// The contents that were read from a path or URL, or else the value itself,
/// taken as inline contents.
pub fn contents_or_inline(value: &str, read: Option<String>) -> (r: String)
    ensures
        r@ == (match read {
            Some(c) => c@,
            None => value@,
        }),
{
    match read {
        Some(c) => c,
        None => value.to_owned(),
    }
}

/// The contents that were read from a path or URL, or else the value itself
/// when it parses as inline configuration, or else an error.
pub fn contents_or_inline_config(value: &str, read: Option<String>, is_config: bool) -> (r: Result<
    String,
    ValueError,
>)
    ensures
        r is Err <==> read is None && !is_config,
        r matches Ok(c) ==> c@ == (match read {
            Some(x) => x@,
            None => value@,
        }),
        r matches Err(e) ==> e matches ValueError::NotPathUrlOrConfig(v) && v@ == value@,
{
    match read {
        Some(c) => Ok(c),
        None => if is_config {
            Ok(value.to_owned())
        } else {
            Err(ValueError::NotPathUrlOrConfig(value.to_owned()))
        },
    }
}

} // verus!
