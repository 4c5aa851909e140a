//! The rules of `ockam project ticket`: which attributes an enrollment
//! ticket grants, and which limits its options must respect.
use vstd::prelude::*;
use std::collections::BTreeMap;
use crate::text::{
    chars_of, string_of, first_index, is_first_index, decimal, push_decimal, is_decimal_digit,
    decimal_value, law_decimal_reads_back,
};

verus! {

/// The attribute that lets a member create a relay on the project node: the
/// relay's name must equal the attribute's value, and `*` allows any name.
pub const OCKAM_RELAY_ATTRIBUTE: &'static str = "ockam-relay";

/// The text of `OCKAM_RELAY_ATTRIBUTE`.
pub open spec fn relay_attribute_key() -> Seq<char> {
    "ockam-relay"@
}

/// The attribute that gives a member a role.
pub open spec fn role_attribute_key() -> Seq<char> {
    "ockam-role"@
}

/// The role of a member that may enroll other members.
pub open spec fn enroller_role() -> Seq<char> {
    "enroller"@
}

/// The attribute that gives access to the project's TLS certificate.
pub open spec fn tls_attribute_key() -> Seq<char> {
    "ockam-tls-certificate"@
}

/// `true`, the value of a flag attribute.
pub open spec fn flag_value() -> Seq<char> {
    "true"@
}

/// Seconds of the longest recommended ticket lifetime (five days).
pub const MAX_RECOMMENDED_TOKEN_DURATION_SECS: u64 = 432000;

/// The highest recommended number of uses of a ticket.
pub const MAX_RECOMMENDED_TOKEN_USAGE_COUNT: u64 = 10;

/// The number of uses of a ticket when none is given.
pub const DEFAULT_TOKEN_USAGE_COUNT: u64 = 1;

/// Seconds of a ticket's lifetime when none is given (ten minutes).
pub const DEFAULT_TOKEN_DURATION_SECS: u64 = 600;

/// A length of time, as whole seconds and the nanoseconds beyond them.
#[derive(Debug, Clone, Copy, PartialEq, Eq, Structural)]
pub struct TicketDuration {
    pub secs: u64,
    pub nanos: u32,
}

/// `d` lasts at least as long as `e` (durations compare by seconds, then by
/// nanoseconds).
pub open spec fn lasts_at_least(d: TicketDuration, e: TicketDuration) -> bool {
    d.secs > e.secs || (d.secs == e.secs && d.nanos >= e.nanos)
}

/// The longest recommended ticket lifetime.
pub open spec fn max_recommended_duration() -> TicketDuration {
    TicketDuration { secs: MAX_RECOMMENDED_TOKEN_DURATION_SECS, nanos: 0 }
}

/// The options of `ockam project ticket` that decide what the ticket is.
pub struct TicketCommand {
    /// Attributes in `key=value` form; a bare `key` stands for `key=true`.
    pub attributes: Vec<String>,
    /// How long the ticket is valid.
    pub expires_in: Option<TicketDuration>,
    /// How many times the ticket can be used.
    pub usage_count: Option<u64>,
    /// The name of the relay that the member may create.
    pub allowed_relay_name: Option<String>,
    /// Whether the member may enroll other members.
    pub enroller: bool,
    /// Whether the member may read the project's TLS certificate.
    pub tls: bool,
    /// Print the ticket hex encoded.
    pub hex_encoded: bool,
    /// Print the ticket in the legacy encoding.
    pub legacy: bool,
}

/// The key of an attribute argument: what precedes its first `=`, or all of it.
pub open spec fn attribute_key(a: Seq<char>) -> Seq<char> {
    if a.contains('=') {
        let i = choose|i: int| is_first_index(a, '=', i);
        a.subrange(0, i)
    } else {
        a
    }
}

/// The value of an attribute argument: what follows its first `=`, or `true`.
pub open spec fn attribute_value(a: Seq<char>) -> Seq<char> {
    if a.contains('=') {
        let i = choose|i: int| is_first_index(a, '=', i);
        a.subrange(i + 1, a.len() as int)
    } else {
        flag_value()
    }
}

/// The attributes that the arguments give, a later argument overriding an
/// earlier one with the same key.
pub open spec fn argument_attributes(args: Seq<String>) -> Map<Seq<char>, Seq<char>>
    decreases args.len(),
{
    if args.len() == 0 {
        Map::empty()
    } else {
        argument_attributes(args.drop_last()).insert(
            attribute_key(args.last()@),
            attribute_value(args.last()@),
        )
    }
}

/// The attributes a ticket grants: those of the arguments, then the relay
/// name, the enroller role and the TLS access, each overriding what came before.
pub open spec fn ticket_attributes(cmd: TicketCommand) -> Map<Seq<char>, Seq<char>> {
    let m0 = argument_attributes(cmd.attributes@);
    let m1 = match cmd.allowed_relay_name {
        Some(name) => m0.insert(relay_attribute_key(), name@),
        None => m0,
    };
    let m2 = if cmd.enroller {
        m1.insert(role_attribute_key(), enroller_role())
    } else {
        m1
    };
    if cmd.tls {
        m2.insert(tls_attribute_key(), flag_value())
    } else {
        m2
    }
}

/// Options that a ticket cannot be made with.
#[derive(Debug, PartialEq, Eq, Structural)]
pub enum TicketError {
    /// A usage count of zero.
    UsageCountTooLow,
}

impl TicketError {
    /// `The usage count must be at least 1`
    pub fn message(&self) -> (r: String)
        ensures
            r@ == "The usage count must be at least 1"@,
    {
        String::from_str("The usage count must be at least 1")
    }
}

/// Options that passed the checks, and whether to warn of a ticket that is
/// both long-lived and usable many times.
pub struct CheckedTicket {
    pub command: TicketCommand,
    pub long_lived_warning: bool,
}

/// The options call for the security warning: both a lifetime and a usage
/// count are given, and both reach the recommended maximum.
pub open spec fn needs_long_lived_warning(cmd: TicketCommand) -> bool {
    match (cmd.expires_in, cmd.usage_count) {
        (Some(d), Some(u)) => lasts_at_least(d, max_recommended_duration()) && u
            >= MAX_RECOMMENDED_TOKEN_USAGE_COUNT,
        _ => false,
    }
}

/// The security warning is raised exactly when a lifetime of at least five
/// days and a usage count of at least ten are both given: a missing usage
/// count (a ticket usable once) or a missing lifetime never raises it.
pub proof fn law_long_lived_warning(cmd: TicketCommand)
    ensures
        needs_long_lived_warning(cmd) <==> (cmd.expires_in is Some && cmd.usage_count is Some
            && cmd.expires_in->0.secs >= 432000 && cmd.usage_count->0 >= 10),
        cmd.usage_count is None ==> !needs_long_lived_warning(cmd),
        cmd.expires_in is None ==> !needs_long_lived_warning(cmd),
{
}

/// Inserts `key` with `value` into `m` (`BTreeMap::insert`); a `String` key
/// is compared by its characters.
#[verifier::external_body]
fn insert_attribute(m: &mut BTreeMap<String, String>, key: String, value: String)
    ensures
        final(m).deep_view() == old(m).deep_view().insert(key@, value@),
{
    m.insert(key, value);
}

/// The key and the value of an attribute argument.
fn split_attribute(a: &String) -> (r: (String, String))
    ensures
        r.0@ == attribute_key(a@),
        r.1@ == attribute_value(a@),
{
    let t = chars_of(a.as_str());
    match first_index(&t, '=') {
        Some(i) => {
            proof {
                let j = choose|j: int| is_first_index(a@, '=', j);
                assert(j == i);
            }
            let n = t.len();
            (string_of(&t, 0, i), string_of(&t, i + 1, n))
        },
        None => {
            assert(t@.subrange(0, t@.len() as int) =~= t@);
            (string_of(&t, 0, t.len()), String::from_str("true"))
        },
    }
}

impl TicketCommand {
    /// The attributes that the ticket grants.
    pub fn attributes(&self) -> (r: Result<BTreeMap<String, String>, TicketError>)
        ensures
            r matches Ok(m) && m.deep_view() == ticket_attributes(*self),
    {
        let mut m: BTreeMap<String, String> = BTreeMap::new();
        proof {
            broadcast use vstd::std_specs::btree::lemma_btree_map_deepview_dom;

            assert(m.deep_view().dom() =~= Set::<Seq<char>>::empty());
            assert(m.deep_view() =~= Map::<Seq<char>, Seq<char>>::empty());
        }
        let mut i: usize = 0;
        while i < self.attributes.len()
            invariant
                i <= self.attributes@.len(),
                m.deep_view() == argument_attributes(self.attributes@.subrange(0, i as int)),
            decreases self.attributes.len() - i,
        {
            let (k, v) = split_attribute(&self.attributes[i]);
            insert_attribute(&mut m, k, v);
            assert(self.attributes@.subrange(0, i + 1).drop_last() =~= self.attributes@.subrange(
                0,
                i as int,
            ));
            i = i + 1;
        }
        assert(self.attributes@.subrange(0, i as int) =~= self.attributes@);
        if let Some(name) = &self.allowed_relay_name {
            insert_attribute(&mut m, String::from_str(OCKAM_RELAY_ATTRIBUTE), name.clone());
        }
        if self.enroller {
            insert_attribute(&mut m, String::from_str("ockam-role"), String::from_str("enroller"));
        }
        if self.tls {
            insert_attribute(
                &mut m,
                String::from_str("ockam-tls-certificate"),
                String::from_str("true"),
            );
        }
        Ok(m)
    }

    /// Checks the limits of the options: a usage count must be at least 1,
    /// and a ticket both long-lived and usable many times calls for a warning.
    pub fn parse_args(self) -> (r: Result<CheckedTicket, TicketError>)
        ensures
            r is Err <==> self.usage_count == Some(0u64),
            r matches Ok(c) ==> c.command == self && c.long_lived_warning
                == needs_long_lived_warning(self),
    {
        if let Some(usage_count) = self.usage_count {
            if usage_count < 1 {
                return Err(TicketError::UsageCountTooLow);
            }
        }
        let warn = match (self.expires_in, self.usage_count) {
            (Some(d), Some(u)) => d.secs >= MAX_RECOMMENDED_TOKEN_DURATION_SECS && u
                >= MAX_RECOMMENDED_TOKEN_USAGE_COUNT,
            _ => false,
        };
        Ok(CheckedTicket { command: self, long_lived_warning: warn })
    }
}

/// How many times a ticket with this usage count can be used, as the
/// command reports it: `once`, or `up to <count> times`.
pub open spec fn usage_phrase_text(count: u64) -> Seq<char> {
    if count == 1 {
        "once"@
    } else {
        "up to "@ + decimal(count as nat) + " times"@
    }
}

/// The usage count of a ticket: the one given, or the default.
pub open spec fn effective_usage_count(usage_count: Option<u64>) -> u64 {
    match usage_count {
        Some(c) => c,
        None => DEFAULT_TOKEN_USAGE_COUNT,
    }
}

/// How many times the ticket can be used, the default count standing in for
/// a missing one.
pub fn usage_phrase(usage_count: Option<u64>) -> (r: String)
    ensures
        r@ == usage_phrase_text(effective_usage_count(usage_count)),
{
    let count = match usage_count {
        Some(c) => c,
        None => DEFAULT_TOKEN_USAGE_COUNT,
    };
    if count == 1 {
        String::from_str("once")
    } else {
        let mut r = String::from_str("up to ");
        push_decimal(&mut r, count);
        r.append(" times");
        r
    }
}

/// A ticket is reported usable `once` exactly when its usage count is 1;
/// any other count `n` is reported as `up to <n> times`, with `n` written
/// in decimal digits that read back as `n`, without a leading zero.
pub proof fn law_usage_phrase(n: u64)
    ensures
        (usage_phrase_text(n) == "once"@) <==> n == 1,
        n != 1 ==> ({
            let p = usage_phrase_text(n);
            let d = p.subrange(6, p.len() - 6);
            &&& p.len() > 12
            &&& p.subrange(0, 6) == "up to "@
            &&& p.subrange(p.len() - 6, p.len() as int) == " times"@
            &&& forall|k: int| 0 <= k < d.len() ==> is_decimal_digit(#[trigger] d[k])
            &&& decimal_value(d) == n
            &&& d[0] == '0' ==> d.len() == 1
        }),
{
    reveal_strlit("once");
    reveal_strlit("up to ");
    reveal_strlit(" times");
    if n != 1 {
        law_decimal_reads_back(n as nat);
        let p = usage_phrase_text(n);
        let dec = decimal(n as nat);
        assert(p == "up to "@ + dec + " times"@);
        assert(p.len() == 12 + dec.len());
        assert(p.subrange(6, p.len() - 6) =~= dec);
        assert(p.subrange(0, 6) =~= "up to "@);
        assert(p.subrange(p.len() - 6, p.len() as int) =~= " times"@);
        assert(p != "once"@);
    }
}

/// The line that reports one attribute: `    "key=value"` and a newline.
pub open spec fn attribute_line(key: Seq<char>, value: Seq<char>) -> Seq<char> {
    "    \""@ + key + "="@ + value + "\"\n"@
}

/// The lines that report the attributes, in the order given.
pub open spec fn attribute_lines(pairs: Seq<(String, String)>) -> Seq<char>
    decreases pairs.len(),
{
    if pairs.len() == 0 {
        Seq::empty()
    } else {
        attribute_lines(pairs.drop_last()) + attribute_line(pairs.last().0@, pairs.last().1@)
    }
}

/// The report of the attributes a ticket grants: nothing when there is none,
/// else a heading, one line per attribute and an empty line.
pub open spec fn attributes_message_text(pairs: Seq<(String, String)>) -> Seq<char> {
    if pairs.len() == 0 {
        Seq::empty()
    } else {
        "The redeemer will be assigned the following attributes:\n"@ + attribute_lines(pairs)
            + "\n"@
    }
}

/// Reports the attributes a ticket grants, in the order given (the command
/// gives them sorted by key, as a `BTreeMap` yields them).
pub fn attributes_message(pairs: &Vec<(String, String)>) -> (r: String)
    ensures
        r@ == attributes_message_text(pairs@),
{
    if pairs.len() == 0 {
        return String::new();
    }
    let mut r = String::from_str("The redeemer will be assigned the following attributes:\n");
    let ghost head = r@;
    let mut i: usize = 0;
    while i < pairs.len()
        invariant
            i <= pairs@.len(),
            r@ == head + attribute_lines(pairs@.subrange(0, i as int)),
        decreases pairs.len() - i,
    {
        let ghost before = r@;
        r.append("    \"");
        r.append(pairs[i].0.as_str());
        r.append("=");
        r.append(pairs[i].1.as_str());
        r.append("\"\n");
        assert(pairs@.subrange(0, i + 1).drop_last() =~= pairs@.subrange(0, i as int));
        assert(r@ =~= before + attribute_line(pairs@[i as int].0@, pairs@[i as int].1@));
        i = i + 1;
    }
    assert(pairs@.subrange(0, i as int) =~= pairs@);
    r.append("\n");
    r
}

/// An attribute argument made of a key without `=`, then `=`, then a value,
/// has that key and that value.
proof fn lemma_key_value_argument(key: Seq<char>, value: Seq<char>)
    requires
        !key.contains('='),
    ensures
        attribute_key(key + seq!['='] + value) == key,
        attribute_value(key + seq!['='] + value) == value,
{
    let a = key + seq!['='] + value;
    assert(is_first_index(a, '=', key.len() as int)) by {
        assert forall|j: int| 0 <= j < key.len() implies a[j] != '=' by {
            assert(a[j] == key[j]);
        }
    }
    let i = choose|i: int| is_first_index(a, '=', i);
    assert(i == key.len());
    assert(a.subrange(0, i) =~= key);
    assert(a.subrange(i + 1, a.len() as int) =~= value);
}

/// A bare attribute `key` is the attribute `key=true`.
pub proof fn law_bare_attribute_is_true(args: Seq<String>, bare: String, explicit: String)
    requires
        !bare@.contains('='),
        explicit@ == bare@ + seq!['='] + flag_value(),
    ensures
        argument_attributes(args.push(bare)) == argument_attributes(args.push(explicit)),
{
    lemma_key_value_argument(bare@, flag_value());
    assert(args.push(bare).drop_last() =~= args);
    assert(args.push(explicit).drop_last() =~= args);
}

/// `--relay <name>` is shorthand for `--attribute ockam-relay=<name>`.
pub proof fn law_relay_shorthand(with_flag: TicketCommand, with_attribute: TicketCommand)
    requires
        with_flag.allowed_relay_name is Some,
        with_attribute.allowed_relay_name is None,
        with_attribute.attributes@.drop_last() == with_flag.attributes@,
        with_attribute.attributes@.len() == with_flag.attributes@.len() + 1,
        with_attribute.attributes@.last()@ == relay_attribute_key() + seq!['='] + with_flag.allowed_relay_name->0@,
        with_attribute.enroller == with_flag.enroller,
        with_attribute.tls == with_flag.tls,
    ensures
        ticket_attributes(with_attribute) == ticket_attributes(with_flag),
{
    reveal_strlit("ockam-relay");
    lemma_key_value_argument(relay_attribute_key(), with_flag.allowed_relay_name->0@);
}

/// `--enroller` is shorthand for `--attribute ockam-role=enroller`.
pub proof fn law_enroller_shorthand(with_flag: TicketCommand, with_attribute: TicketCommand)
    requires
        with_flag.enroller,
        !with_attribute.enroller,
        with_attribute.attributes@.drop_last() == with_flag.attributes@,
        with_attribute.attributes@.len() == with_flag.attributes@.len() + 1,
        with_attribute.attributes@.last()@ == role_attribute_key() + seq!['='] + enroller_role(),
        with_attribute.allowed_relay_name == with_flag.allowed_relay_name,
        with_attribute.tls == with_flag.tls,
    ensures
        ticket_attributes(with_attribute) == ticket_attributes(with_flag),
{
    reveal_strlit("ockam-role");
    reveal_strlit("ockam-relay");
    lemma_key_value_argument(role_attribute_key(), enroller_role());
    let m0 = argument_attributes(with_flag.attributes@);
    if let Some(name) = with_flag.allowed_relay_name {
        assert(role_attribute_key() != relay_attribute_key()) by {
            assert(role_attribute_key()[7] != relay_attribute_key()[7]);
        }
        assert(m0.insert(role_attribute_key(), enroller_role()).insert(relay_attribute_key(), name@)
            =~= m0.insert(relay_attribute_key(), name@).insert(role_attribute_key(), enroller_role()));
    }
}

/// `--tls` is shorthand for `--attribute ockam-tls-certificate=true`.
pub proof fn law_tls_shorthand(with_flag: TicketCommand, with_attribute: TicketCommand)
    requires
        with_flag.tls,
        !with_attribute.tls,
        with_attribute.attributes@.drop_last() == with_flag.attributes@,
        with_attribute.attributes@.len() == with_flag.attributes@.len() + 1,
        with_attribute.attributes@.last()@ == tls_attribute_key() + seq!['='] + flag_value(),
        with_attribute.allowed_relay_name == with_flag.allowed_relay_name,
        with_attribute.enroller == with_flag.enroller,
    ensures
        ticket_attributes(with_attribute) == ticket_attributes(with_flag),
{
    reveal_strlit("ockam-tls-certificate");
    reveal_strlit("ockam-role");
    reveal_strlit("ockam-relay");
    lemma_key_value_argument(tls_attribute_key(), flag_value());
    let tls = tls_attribute_key();
    assert(tls != relay_attribute_key()) by {
        assert(tls[6] != relay_attribute_key()[6]);
    }
    assert(tls != role_attribute_key()) by {
        assert(tls[6] != role_attribute_key()[6]);
    }
    let m0 = argument_attributes(with_flag.attributes@);
    let m0t = m0.insert(tls, flag_value());
    let m1 = match with_flag.allowed_relay_name {
        Some(name) => m0.insert(relay_attribute_key(), name@),
        None => m0,
    };
    let m1t = match with_flag.allowed_relay_name {
        Some(name) => m0t.insert(relay_attribute_key(), name@),
        None => m0t,
    };
    assert(m1t =~= m1.insert(tls, flag_value()));
    let m2 = if with_flag.enroller {
        m1.insert(role_attribute_key(), enroller_role())
    } else {
        m1
    };
    let m2t = if with_flag.enroller {
        m1t.insert(role_attribute_key(), enroller_role())
    } else {
        m1t
    };
    assert(m2t =~= m2.insert(tls, flag_value()));
}

} // verus!
