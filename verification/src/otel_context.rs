//! The OpenTelemetry propagation context that messages carry: a map from
//! propagation keys (such as `traceparent`) to their values, serialized as a
//! JSON object.
use vstd::prelude::*;
use std::collections::HashMap;
use opentelemetry::Context;

verus! {

#[verifier::external_type_specification]
#[verifier::external_body]
pub struct ExOtelContext(opentelemetry::Context);

#[verifier::external_type_specification]
#[verifier::external_body]
pub struct ExJsonError(serde_json::Error);

/// The map that a list of entries describes; a later entry overrides an
/// earlier one with the same key.
pub open spec fn entries_map(s: Seq<(String, String)>) -> Map<Seq<char>, Seq<char>>
    decreases s.len(),
{
    if s.len() == 0 {
        Map::empty()
    } else {
        entries_map(s.drop_last()).insert(s.last().0@, s.last().1@)
    }
}

/// No key occurs twice among the entries.
pub open spec fn distinct_keys(s: Seq<(String, String)>) -> bool {
    forall|i: int, j: int|
        0 <= i < s.len() && 0 <= j < s.len() && i != j ==> #[trigger] s[i].0@ != #[trigger] s[j].0@
}

/// The key-value map that a JSON text denotes when it is an object whose
/// values are all strings (what `serde_json` parses into a
/// `HashMap<String, String>`); `None` for any other text.
pub uninterp spec fn json_string_map(input: Seq<char>) -> Option<Map<Seq<char>, Seq<char>>>;

/// A serialized OpenTelemetry propagation context.
#[derive(Debug)]
pub struct OpenTelemetryContext {
    entries: Vec<(String, String)>,
}

impl View for OpenTelemetryContext {
    type V = Map<Seq<char>, Seq<char>>;

    closed spec fn view(&self) -> Map<Seq<char>, Seq<char>> {
        entries_map(self.entries@)
    }
}

proof fn lemma_entries_map_dom(s: Seq<(String, String)>, k: Seq<char>)
    ensures
        entries_map(s).contains_key(k) <==> exists|i: int| 0 <= i < s.len() && #[trigger] s[i].0@ == k,
    decreases s.len(),
{
    if s.len() > 0 {
        lemma_entries_map_dom(s.drop_last(), k);
        if exists|i: int| 0 <= i < s.len() && #[trigger] s[i].0@ == k {
            let i = choose|i: int| 0 <= i < s.len() && #[trigger] s[i].0@ == k;
            if i < s.len() - 1 {
                assert(s.drop_last()[i].0@ == k);
            }
        }
        if exists|i: int| 0 <= i < s.len() - 1 && #[trigger] s.drop_last()[i].0@ == k {
            let i = choose|i: int| 0 <= i < s.len() - 1 && #[trigger] s.drop_last()[i].0@ == k;
            assert(s[i].0@ == k);
        }
    }
}

proof fn lemma_entries_map_at(s: Seq<(String, String)>, i: int)
    requires
        distinct_keys(s),
        0 <= i < s.len(),
    ensures
        entries_map(s).contains_key(s[i].0@),
        entries_map(s)[s[i].0@] == s[i].1@,
    decreases s.len(),
{
    if i < s.len() - 1 {
        assert(s.drop_last()[i] == s[i]);
        assert(distinct_keys(s.drop_last()));
        lemma_entries_map_at(s.drop_last(), i);
        assert(s[i].0@ != s[s.len() - 1].0@);
    }
}

proof fn lemma_entries_map_update(s: Seq<(String, String)>, i: int, e: (String, String))
    requires
        distinct_keys(s),
        0 <= i < s.len(),
        e.0@ == s[i].0@,
    ensures
        entries_map(s.update(i, e)) == entries_map(s).insert(e.0@, e.1@),
    decreases s.len(),
{
    let u = s.update(i, e);
    if i == s.len() - 1 {
        assert(u.drop_last() =~= s.drop_last());
        lemma_entries_map_dom(s.drop_last(), e.0@);
        if entries_map(s.drop_last()).contains_key(e.0@) {
            let j = choose|j: int| 0 <= j < s.drop_last().len() && #[trigger] s.drop_last()[j].0@
                == e.0@;
            assert(s[j].0@ == s[i].0@);
        }
        assert(entries_map(u) =~= entries_map(s).insert(e.0@, e.1@));
    } else {
        assert(u.drop_last() =~= s.drop_last().update(i, e));
        assert(distinct_keys(s.drop_last()));
        lemma_entries_map_update(s.drop_last(), i, e);
        assert(s.last().0@ != e.0@);
        assert(entries_map(u) =~= entries_map(s).insert(e.0@, e.1@));
    }
}

/// The position of the entry with key `key`, if any.
fn find_key(entries: &Vec<(String, String)>, key: &str) -> (r: Option<usize>)
    ensures
        r matches Some(i) ==> i < entries@.len() && entries@[i as int].0@ == key@,
        r is None ==> forall|i: int| 0 <= i < entries@.len() ==> #[trigger] entries@[i].0@ != key@,
{
    let k = key.to_owned();
    let mut i: usize = 0;
    while i < entries.len()
        invariant
            k@ == key@,
            forall|j: int| 0 <= j < i ==> #[trigger] entries@[j].0@ != key@,
        decreases entries.len() - i,
    {
        if entries[i].0 == k {
            return Some(i);
        }
        i = i + 1;
    }
    None
}

impl OpenTelemetryContext {
    #[verifier::type_invariant]
    spec fn keys_are_distinct(self) -> bool {
        distinct_keys(self.entries@)
    }

    /// The context without any entry.
    pub fn empty() -> (r: OpenTelemetryContext)
        ensures
            r@ == Map::<Seq<char>, Seq<char>>::empty(),
    {
        OpenTelemetryContext { entries: Vec::new() }
    }

    /// Sets `key` to `value` (what a propagator does when it injects a field).
    pub fn set(&mut self, key: &str, value: String)
        ensures
            final(self)@ == old(self)@.insert(key@, value@),
    {
        proof {
            use_type_invariant(&*self);
        }
        let mut entries: Vec<(String, String)> = Vec::new();
        std::mem::swap(&mut entries, &mut self.entries);
        let ghost old_entries = entries@;
        match find_key(&entries, key) {
            Some(i) => {
                let entry = (key.to_owned(), value);
                proof {
                    lemma_entries_map_update(old_entries, i as int, entry);
                    assert(distinct_keys(old_entries.update(i as int, entry)));
                }
                entries.set(i, entry);
            },
            None => {
                let entry = (key.to_owned(), value);
                proof {
                    assert(old_entries.push(entry).drop_last() =~= old_entries);
                    assert(distinct_keys(old_entries.push(entry)));
                }
                entries.push(entry);
            },
        }
        self.entries = entries;
    }

    /// The value of `key`, if the context has one.
    pub fn get(&self, key: &str) -> (r: Option<&str>)
        ensures
            r is Some <==> self@.contains_key(key@),
            r matches Some(v) ==> v@ == self@[key@],
    {
        proof {
            use_type_invariant(self);
            lemma_entries_map_dom(self.entries@, key@);
        }
        match find_key(&self.entries, key) {
            Some(i) => {
                proof {
                    lemma_entries_map_at(self.entries@, i as int);
                }
                Some(self.entries[i].1.as_str())
            },
            None => None,
        }
    }

    /// The value of `key`, if the context has one, as a `String`.
    fn get_string(&self, key: &str) -> (r: Option<&String>)
        ensures
            r is Some <==> self@.contains_key(key@),
            r matches Some(v) ==> v@ == self@[key@],
    {
        proof {
            use_type_invariant(self);
            lemma_entries_map_dom(self.entries@, key@);
        }
        match find_key(&self.entries, key) {
            Some(i) => {
                proof {
                    lemma_entries_map_at(self.entries@, i as int);
                }
                Some(&self.entries[i].1)
            },
            None => None,
        }
    }

    /// The JSON serialization of the context: an object mapping each key to
    /// its value (the order of the members is not fixed).
    pub fn to_string(&self) -> (r: String)
        ensures
            json_string_map(r@) == Some(self@),
    {
        let m = self.as_map();
        json_of_map(&m)
    }

    /// The keys of the context, each once.
    pub fn keys(&self) -> (r: Vec<&str>)
        ensures
            r@.len() == self@.dom().len(),
            forall|i: int| 0 <= i < r@.len() ==> self@.contains_key(#[trigger] r@[i]@),
            forall|k: Seq<char>| #[trigger]
                self@.contains_key(k) ==> exists|i: int| 0 <= i < r@.len() && #[trigger] r@[i]@ == k,
            forall|i: int, j: int|
                0 <= i < r@.len() && 0 <= j < r@.len() && i != j ==> #[trigger] r@[i]@
                    != #[trigger] r@[j]@,
    {
        proof {
            use_type_invariant(self);
        }
        let mut r: Vec<&str> = Vec::new();
        let mut i: usize = 0;
        while i < self.entries.len()
            invariant
                distinct_keys(self.entries@),
                i <= self.entries@.len(),
                r@.len() == i,
                forall|j: int| 0 <= j < i ==> #[trigger] r@[j]@ == self.entries@[j].0@,
            decreases self.entries.len() - i,
        {
            r.push(self.entries[i].0.as_str());
            i = i + 1;
        }
        proof {
            lemma_keys_of_entries(self.entries@, r@);
        }
        r
    }

    /// Builds a context from entries, a later entry overriding an earlier one
    /// with the same key.
    pub fn from_entries(entries: Vec<(String, String)>) -> (r: OpenTelemetryContext)
        ensures
            r@ == entries_map(entries@),
    {
        let mut r = OpenTelemetryContext::empty();
        let mut i: usize = 0;
        while i < entries.len()
            invariant
                i <= entries@.len(),
                r@ == entries_map(entries@.subrange(0, i as int)),
            decreases entries.len() - i,
        {
            r.set(entries[i].0.as_str(), entries[i].1.clone());
            assert(entries@.subrange(0, i + 1).drop_last() =~= entries@.subrange(0, i as int));
            i = i + 1;
        }
        assert(entries@.subrange(0, i as int) =~= entries@);
        r
    }

    /// The entries of the context as a `HashMap`.
    pub fn as_map(&self) -> (r: HashMap<String, String>)
        ensures
            r.deep_view() == self@,
    {
        proof {
            use_type_invariant(self);
        }
        let mut m: HashMap<String, String> = HashMap::new();
        proof {
            broadcast use vstd::std_specs::hash::lemma_hashmap_deepview_dom;

            assert(m.deep_view().dom() =~= Set::<Seq<char>>::empty());
            assert(m.deep_view() =~= Map::<Seq<char>, Seq<char>>::empty());
        }
        let mut i: usize = 0;
        while i < self.entries.len()
            invariant
                i <= self.entries@.len(),
                m.deep_view() == entries_map(self.entries@.subrange(0, i as int)),
            decreases self.entries.len() - i,
        {
            insert_entry(&mut m, self.entries[i].0.clone(), self.entries[i].1.clone());
            assert(self.entries@.subrange(0, i + 1).drop_last() =~= self.entries@.subrange(
                0,
                i as int,
            ));
            i = i + 1;
        }
        assert(self.entries@.subrange(0, i as int) =~= self.entries@);
        m
    }

    /// Recovers an OpenTelemetry context from the serialized entries, with the
    /// global propagator reading them through this context's `get` and `keys`.
    pub fn extract(&self) -> Context {
        propagator_extract(self)
    }

    /// Serializes `context` with the global propagator, which writes its
    /// fields into an empty context through `set`.
    pub fn inject(context: &Context) -> OpenTelemetryContext {
        let mut carrier = OpenTelemetryContext::empty();
        propagator_inject(context, &mut carrier);
        carrier
    }
}

/// The context is the carrier into which a propagator writes its fields;
/// each field is set as the propagator names it.
impl opentelemetry::propagation::Injector for OpenTelemetryContext {
    fn set(&mut self, key: &str, value: String) {
        OpenTelemetryContext::set(self, key, value)
    }
}

/// The context is the carrier from which a propagator reads its fields;
/// each field is looked up as the propagator names it.
impl opentelemetry::propagation::Extractor for OpenTelemetryContext {
    fn get(&self, key: &str) -> Option<&str> {
        OpenTelemetryContext::get(self, key)
    }

    fn keys(&self) -> Vec<&str> {
        OpenTelemetryContext::keys(self)
    }
}

proof fn lemma_keys_of_entries(s: Seq<(String, String)>, r: Seq<&str>)
    requires
        distinct_keys(s),
        r.len() == s.len(),
        forall|j: int| 0 <= j < s.len() ==> #[trigger] r[j]@ == s[j].0@,
    ensures
        r.len() == entries_map(s).dom().len(),
        forall|i: int| 0 <= i < r.len() ==> entries_map(s).contains_key(#[trigger] r[i]@),
        forall|k: Seq<char>| #[trigger]
            entries_map(s).contains_key(k) ==> exists|i: int| 0 <= i < r.len() && #[trigger] r[i]@ == k,
        forall|i: int, j: int|
            0 <= i < r.len() && 0 <= j < r.len() && i != j ==> #[trigger] r[i]@ != #[trigger] r[j]@,
    decreases s.len(),
{
    assert forall|i: int| 0 <= i < r.len() implies entries_map(s).contains_key(#[trigger] r[i]@) by {
        lemma_entries_map_dom(s, r[i]@);
    }
    assert forall|k: Seq<char>| #[trigger] entries_map(s).contains_key(k) implies exists|i: int|
        0 <= i < r.len() && #[trigger] r[i]@ == k by {
        lemma_entries_map_dom(s, k);
        let i = choose|i: int| 0 <= i < s.len() && #[trigger] s[i].0@ == k;
        assert(r[i]@ == k);
    }
    assert forall|i: int, j: int|
        0 <= i < r.len() && 0 <= j < r.len() && i != j implies #[trigger] r[i]@ != #[trigger] r[j]@ by {
        assert(s[i].0@ != s[j].0@);
    }
    lemma_entries_map_len(s);
}

proof fn lemma_entries_map_len(s: Seq<(String, String)>)
    requires
        distinct_keys(s),
    ensures
        entries_map(s).dom().len() == s.len(),
        entries_map(s).dom().finite(),
    decreases s.len(),
{
    if s.len() > 0 {
        assert(distinct_keys(s.drop_last()));
        lemma_entries_map_len(s.drop_last());
        lemma_entries_map_dom(s.drop_last(), s.last().0@);
        if entries_map(s.drop_last()).contains_key(s.last().0@) {
            let j = choose|j: int| 0 <= j < s.drop_last().len() && #[trigger] s.drop_last()[j].0@
                == s.last().0@;
            assert(s[j].0@ == s[s.len() - 1].0@);
        }
    }
}

/// Inserts `key` with `value` into `m` (`HashMap::insert`); a `String` key is
/// compared by its characters.
#[verifier::external_body]
fn insert_entry(m: &mut HashMap<String, String>, key: String, value: String)
    ensures
        final(m).deep_view() == old(m).deep_view().insert(key@, value@),
{
    m.insert(key, value);
}

/// `TextMapPropagator::extract` of the global propagator
/// (`opentelemetry::global::get_text_map_propagator`), reading the fields
/// from `carrier` through its `Extractor` impl. Nothing is stated of the
/// result: it depends on which propagator the process has installed.
#[verifier::external_body]
fn propagator_extract(carrier: &OpenTelemetryContext) -> Context {
    opentelemetry::global::get_text_map_propagator(|propagator| propagator.extract(carrier))
}

/// `TextMapPropagator::inject_context` of the global propagator
/// (`opentelemetry::global::get_text_map_propagator`), writing the fields of
/// `context` into `carrier` through its `Injector` impl. Which fields it
/// sets depends on which propagator the process has installed, so nothing
/// is stated of the carrier after the call.
#[verifier::external_body]
fn propagator_inject(context: &Context, carrier: &mut OpenTelemetryContext) {
    opentelemetry::global::get_text_map_propagator(
        |propagator| propagator.inject_context(context, carrier),
    );
}

/// The part of the system that an error comes from.
#[derive(Debug, Clone, Copy, PartialEq, Eq, Structural)]
pub enum ErrorOrigin {
    /// The API: what a caller handed in.
    Api,
}

/// The kind of an error.
#[derive(Debug, Clone, Copy, PartialEq, Eq, Structural)]
pub enum ErrorKind {
    /// A value could not be serialized or deserialized.
    Serialization,
}

/// Why a text is not a serialized propagation context.
#[derive(Debug)]
pub struct ContextParseError {
    /// Where the error comes from: the API.
    pub origin: ErrorOrigin,
    /// What kind of error it is: a serialization error.
    pub kind: ErrorKind,
    /// The text that was parsed.
    pub input: String,
    /// What the JSON parser reported.
    pub reason: String,
}

/// The message of a `ContextParseError`.
pub open spec fn context_error_message(input: Seq<char>, reason: Seq<char>) -> Seq<char> {
    "Invalid OpenTelemetry context: "@ + input + ". Got error: "@ + reason
}

impl ContextParseError {
    /// `Invalid OpenTelemetry context: <input>. Got error: <reason>`
    pub fn message(&self) -> (r: String)
        ensures
            r@ == context_error_message(self.input@, self.reason@),
    {
        let mut r = String::from_str("Invalid OpenTelemetry context: ");
        r.append(self.input.as_str());
        r.append(". Got error: ");
        r.append(self.reason.as_str());
        r
    }
}

/// Parses a propagation context from its JSON serialization: an object whose
/// values are all strings.
pub fn opentelemetry_context_parser(input: &str) -> (r: Result<OpenTelemetryContext, ContextParseError>)
    ensures
        r is Ok <==> json_string_map(input@) is Some,
        r matches Ok(c) ==> json_string_map(input@) == Some(c@),
        r matches Err(e) ==> json_string_map(input@) is None && e.input@ == input@ && e.origin
            == ErrorOrigin::Api && e.kind == ErrorKind::Serialization,
{
    match parse_json_entries(input) {
        Ok(entries) => Ok(OpenTelemetryContext::from_entries(entries)),
        Err(e) => Err(
            ContextParseError {
                origin: ErrorOrigin::Api,
                kind: ErrorKind::Serialization,
                input: input.to_owned(),
                reason: json_error_text(&e),
            },
        ),
    }
}

impl std::str::FromStr for OpenTelemetryContext {
    type Err = ContextParseError;

    fn from_str(s: &str) -> (r: Result<OpenTelemetryContext, ContextParseError>)
        ensures
            r is Ok <==> json_string_map(s@) is Some,
            r matches Ok(c) ==> json_string_map(s@) == Some(c@),
            r matches Err(e) ==> e.input@ == s@ && e.origin == ErrorOrigin::Api && e.kind
                == ErrorKind::Serialization,
    {
        opentelemetry_context_parser(s)
    }
}

impl<'a> TryFrom<&'a str> for OpenTelemetryContext {
    type Error = ContextParseError;

    fn try_from(value: &'a str) -> (r: Result<OpenTelemetryContext, ContextParseError>)
        ensures
            r is Ok <==> json_string_map(value@) is Some,
            r matches Ok(c) ==> json_string_map(value@) == Some(c@),
            r matches Err(e) ==> e.input@ == value@ && e.origin == ErrorOrigin::Api && e.kind
                == ErrorKind::Serialization,
    {
        opentelemetry_context_parser(value)
    }
}

impl TryFrom<String> for OpenTelemetryContext {
    type Error = ContextParseError;

    fn try_from(value: String) -> (r: Result<OpenTelemetryContext, ContextParseError>)
        ensures
            r is Ok <==> json_string_map(value@) is Some,
            r matches Ok(c) ==> json_string_map(value@) == Some(c@),
            r matches Err(e) ==> e.input@ == value@ && e.origin == ErrorOrigin::Api && e.kind
                == ErrorKind::Serialization,
    {
        opentelemetry_context_parser(value.as_str())
    }
}

// The conversions state their results in their own `ensures`; they make no
// claim through a spec function of the trait.
impl<'a> vstd::std_specs::convert::TryFromSpecImpl<&'a str> for OpenTelemetryContext {
    open spec fn obeys_try_from_spec() -> bool {
        false
    }

    open spec fn try_from_spec(v: &'a str) -> Result<Self, ContextParseError> {
        vstd::pervasive::arbitrary()
    }
}

impl vstd::std_specs::convert::TryFromSpecImpl<String> for OpenTelemetryContext {
    open spec fn obeys_try_from_spec() -> bool {
        false
    }

    open spec fn try_from_spec(v: String) -> Result<Self, ContextParseError> {
        vstd::pervasive::arbitrary()
    }
}

/// `serde_json::from_str` into a `HashMap<String, String>`, whose entries
/// are returned: the map that `json_string_map` names, or the parser's error
/// when there is none.
#[verifier::external_body]
fn parse_json_entries(input: &str) -> (r: Result<Vec<(String, String)>, serde_json::Error>)
    ensures
        r matches Ok(v) ==> distinct_keys(v@) && json_string_map(input@) == Some(entries_map(v@)),
        r is Err ==> json_string_map(input@) is None,
{
    match serde_json::from_str::<HashMap<String, String>>(input) {
        Ok(m) => Ok(m.into_iter().collect()),
        Err(e) => Err(e),
    }
}

/// The `Debug` rendering of a JSON error (`format!("{:?}", e)`); nothing is
/// stated of the text.
#[verifier::external_body]
fn json_error_text(e: &serde_json::Error) -> String {
    format!("{:?}", e)
}

impl Clone for OpenTelemetryContext {
    fn clone(&self) -> (r: OpenTelemetryContext)
        ensures
            r@ == self@,
    {
        proof {
            use_type_invariant(self);
        }
        let mut entries: Vec<(String, String)> = Vec::new();
        let mut i: usize = 0;
        while i < self.entries.len()
            invariant
                i <= self.entries@.len(),
                entries@.len() == i,
                forall|k: int| 0 <= k < i ==> (#[trigger] entries@[k]).0@ == self.entries@[k].0@
                    && entries@[k].1@ == self.entries@[k].1@,
            decreases self.entries.len() - i,
        {
            entries.push((self.entries[i].0.clone(), self.entries[i].1.clone()));
            i = i + 1;
        }
        proof {
            lemma_entries_map_same_views(entries@, self.entries@);
            assert forall|a: int, b: int|
                0 <= a < entries@.len() && 0 <= b < entries@.len() && a != b implies #[trigger] entries@[a].0@
                != #[trigger] entries@[b].0@ by {
                assert(self.entries@[a].0@ != self.entries@[b].0@);
            }
        }
        OpenTelemetryContext { entries }
    }
}

/// Entries with the same keys and values, position by position, describe the same map.
proof fn lemma_entries_map_same_views(s: Seq<(String, String)>, u: Seq<(String, String)>)
    requires
        s.len() == u.len(),
        forall|k: int| 0 <= k < s.len() ==> (#[trigger] s[k]).0@ == u[k].0@ && s[k].1@ == u[k].1@,
    ensures
        entries_map(s) == entries_map(u),
    decreases s.len(),
{
    if s.len() > 0 {
        lemma_entries_map_same_views(s.drop_last(), u.drop_last());
        assert(s[s.len() - 1].0@ == u[u.len() - 1].0@);
    }
}

impl PartialEq for OpenTelemetryContext {
    fn eq(&self, other: &OpenTelemetryContext) -> (r: bool) {
        proof {
            use_type_invariant(self);
            use_type_invariant(other);
            lemma_entries_map_len(self.entries@);
            lemma_entries_map_len(other.entries@);
        }
        if self.entries.len() != other.entries.len() {
            return false;
        }
        let mut i: usize = 0;
        while i < self.entries.len()
            invariant
                distinct_keys(self.entries@),
                self.entries@.len() == other@.dom().len(),
                forall|k: int|
                    0 <= k < i ==> other@.contains_key(#[trigger] self.entries@[k].0@)
                        && other@[self.entries@[k].0@] == self.entries@[k].1@,
            decreases self.entries.len() - i,
        {
            match other.get_string(self.entries[i].0.as_str()) {
                Some(v) => {
                    if *v != self.entries[i].1 {
                        proof {
                            lemma_entries_map_at(self.entries@, i as int);
                        }
                        return false;
                    }
                },
                None => {
                    proof {
                        lemma_entries_map_at(self.entries@, i as int);
                    }
                    return false;
                },
            }
            i = i + 1;
        }
        proof {
            lemma_entries_map_len(self.entries@);
            let sm = entries_map(self.entries@);
            let om = other@;
            assert forall|key: Seq<char>| #[trigger] sm.dom().contains(key) implies om.dom().contains(key)
                && om[key] == sm[key] by {
                lemma_entries_map_dom(self.entries@, key);
                let k = choose|k: int| 0 <= k < self.entries@.len() && #[trigger] self.entries@[k].0@
                    == key;
                lemma_entries_map_at(self.entries@, k);
            }
            lemma_entries_map_len(other.entries@);
            assert(sm.dom().subset_of(om.dom()));
            assert(sm.dom().len() == om.dom().len());
            vstd::set_lib::lemma_subset_equality(sm.dom(), om.dom());
            assert(sm =~= om);
        }
        true
    }
}

impl vstd::std_specs::cmp::PartialEqSpecImpl for OpenTelemetryContext {
    open spec fn obeys_eq_spec() -> bool {
        true
    }

    open spec fn eq_spec(&self, other: &OpenTelemetryContext) -> bool {
        self@ == other@
    }
}

impl Eq for OpenTelemetryContext {
}

/// `serde_json::to_string` of a `HashMap<String, String>`: a JSON object
/// that parses back to the same map. Serializing a map of strings does not
/// fail; the empty text that the error arm returns is never produced.
#[verifier::external_body]
fn json_of_map(m: &HashMap<String, String>) -> (r: String)
    ensures
        json_string_map(r@) == Some(m.deep_view()),
{
    match serde_json::to_string(m) {
        Ok(s) => s,
        Err(_) => String::new(),
    }
}

} // verus!
