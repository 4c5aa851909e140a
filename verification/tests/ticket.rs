use ockam_kit::ticket::{
    attributes_message, usage_phrase, TicketCommand, TicketDuration, TicketError,
    OCKAM_RELAY_ATTRIBUTE,
};
use std::collections::BTreeMap;

fn command(attributes: &[&str]) -> TicketCommand {
    TicketCommand {
        attributes: attributes.iter().map(|a| a.to_string()).collect(),
        expires_in: None,
        usage_count: None,
        allowed_relay_name: None,
        enroller: false,
        tls: false,
        hex_encoded: false,
        legacy: false,
    }
}

fn map(pairs: &[(&str, &str)]) -> BTreeMap<String, String> {
    pairs.iter().map(|(k, v)| (k.to_string(), v.to_string())).collect()
}

#[test]
fn attributes_from_arguments() {
    let c = command(&["a=b", "flag", "a=c=d", "e="]);
    assert_eq!(c.attributes().unwrap(), map(&[("a", "c=d"), ("flag", "true"), ("e", "")]));
}

#[test]
fn flags_become_attributes() {
    let mut c = command(&["ockam-role=member"]);
    c.allowed_relay_name = Some("foo".to_string());
    c.enroller = true;
    c.tls = true;
    assert_eq!(
        c.attributes().unwrap(),
        map(&[
            ("ockam-relay", "foo"),
            ("ockam-role", "enroller"),
            ("ockam-tls-certificate", "true"),
        ])
    );
}

#[test]
fn relay_flag_is_shorthand_for_the_attribute() {
    let mut with_flag = command(&["x=1"]);
    with_flag.allowed_relay_name = Some("foo".to_string());
    let with_attribute = command(&["x=1", "ockam-relay=foo"]);
    assert_eq!(with_flag.attributes().unwrap(), with_attribute.attributes().unwrap());
    let mut enroller = command(&[]);
    enroller.enroller = true;
    assert_eq!(enroller.attributes().unwrap(), command(&["ockam-role=enroller"]).attributes().unwrap());
    let mut tls = command(&[]);
    tls.tls = true;
    assert_eq!(tls.attributes().unwrap(), command(&["ockam-tls-certificate"]).attributes().unwrap());
}

#[test]
fn usage_count_must_be_positive() {
    let mut c = command(&[]);
    c.usage_count = Some(0);
    let e = c.parse_args().err().unwrap();
    assert_eq!(e, TicketError::UsageCountTooLow);
    assert_eq!(e.message(), "The usage count must be at least 1");
}

#[test]
fn long_lived_reusable_tickets_are_warned_about() {
    let mut c = command(&[]);
    c.usage_count = Some(10);
    c.expires_in = Some(TicketDuration { secs: 432000, nanos: 0 });
    assert!(c.parse_args().ok().unwrap().long_lived_warning);

    let mut c = command(&[]);
    c.usage_count = Some(9);
    c.expires_in = Some(TicketDuration { secs: 500000, nanos: 0 });
    assert!(!c.parse_args().ok().unwrap().long_lived_warning);

    let mut c = command(&[]);
    c.usage_count = Some(100);
    c.expires_in = Some(TicketDuration { secs: 431999, nanos: 999_999_999 });
    assert!(!c.parse_args().ok().unwrap().long_lived_warning);

    let mut c = command(&[]);
    c.usage_count = Some(100);
    let checked = c.parse_args().ok().unwrap();
    assert!(!checked.long_lived_warning);
    assert_eq!(checked.command.usage_count, Some(100));
}

#[test]
fn relay_attribute_name() {
    assert_eq!(OCKAM_RELAY_ATTRIBUTE, "ockam-relay");
    let mut cmd = command(&[]);
    cmd.allowed_relay_name = Some("*".to_string());
    assert_eq!(cmd.attributes().unwrap(), map(&[(OCKAM_RELAY_ATTRIBUTE, "*")]));
}

#[test]
fn reports_how_often_a_ticket_can_be_used() {
    assert_eq!(usage_phrase(None), "once");
    assert_eq!(usage_phrase(Some(1)), "once");
    assert_eq!(usage_phrase(Some(5)), "up to 5 times");
    assert_eq!(usage_phrase(Some(10)), "up to 10 times");
    assert_eq!(usage_phrase(Some(0)), "up to 0 times");
    assert_eq!(usage_phrase(Some(u64::MAX)), "up to 18446744073709551615 times");
}

#[test]
fn reports_the_granted_attributes() {
    assert_eq!(attributes_message(&vec![]), "");
    let pairs = vec![
        ("a".to_string(), "1".to_string()),
        ("ockam-relay".to_string(), "*".to_string()),
    ];
    assert_eq!(
        attributes_message(&pairs),
        "The redeemer will be assigned the following attributes:\n    \"a=1\"\n    \"ockam-relay=*\"\n\n"
    );
}
