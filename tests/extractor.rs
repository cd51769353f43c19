use update_dhcpcd_profile::attrs::{Attr, AttributeMap};
use update_dhcpcd_profile::dump::{attr_named, extract_attributes, parse_dump, strip_quotes, DumpError};

fn all_none_but(m: &AttributeMap, keep: &[Attr]) -> bool {
    [
        Attr::BroadcastAddress,
        Attr::DomainNameServers,
        Attr::IpAddress,
        Attr::Routers,
        Attr::SubnetCidr,
    ]
    .iter()
    .all(|a| keep.contains(a) || m.get(*a).is_none())
}

#[test]
fn scenario_quoted_ip_and_unknown_name() {
    let m = extract_attributes(b"ip_address='10.0.0.5'\nunused_var=xyz\n", b"").unwrap();
    assert_eq!(m.get(Attr::IpAddress), Some("10.0.0.5".to_string()));
    assert!(all_none_but(&m, &[Attr::IpAddress]));
}

#[test]
fn recognised_names_kept_unknown_dropped() {
    let text = "broadcast_address=192.168.1.255\ndomain_name_servers='1.1.1.1 8.8.8.8'\n\
                routers=192.168.1.1\nsubnet_cidr=24\ninterface=wlan0\nip_address=192.168.1.42\n";
    let m = parse_dump(text).unwrap();
    assert_eq!(m.get(Attr::BroadcastAddress), Some("192.168.1.255".to_string()));
    assert_eq!(m.get(Attr::DomainNameServers), Some("1.1.1.1 8.8.8.8".to_string()));
    assert_eq!(m.get(Attr::IpAddress), Some("192.168.1.42".to_string()));
    assert_eq!(m.get(Attr::Routers), Some("192.168.1.1".to_string()));
    assert_eq!(m.get(Attr::SubnetCidr), Some("24".to_string()));
}

#[test]
fn last_occurrence_wins() {
    let m = parse_dump("routers=1.1.1.1\nrouters=2.2.2.2\n").unwrap();
    assert_eq!(m.get(Attr::Routers), Some("2.2.2.2".to_string()));
}

#[test]
fn empty_value_does_not_override() {
    let m = parse_dump("routers=1.1.1.1\nrouters=\n").unwrap();
    assert_eq!(m.get(Attr::Routers), Some("1.1.1.1".to_string()));
}

#[test]
fn lines_without_equals_or_value_skipped() {
    let m = parse_dump("ip_address\nrouters=\nsubnet_cidr=16\n").unwrap();
    assert_eq!(m.get(Attr::IpAddress), None);
    assert_eq!(m.get(Attr::Routers), None);
    assert_eq!(m.get(Attr::SubnetCidr), Some("16".to_string()));
}

#[test]
fn only_unusable_lines_is_empty() {
    assert!(parse_dump("ip_address\nrouters=\n\n").is_none());
    assert!(parse_dump("").is_none());
}

#[test]
fn unknown_pairs_only_is_not_empty() {
    let m = parse_dump("reason=BOUND\n").unwrap();
    assert!(all_none_but(&m, &[]));
}

#[test]
fn split_at_first_equals() {
    let m = parse_dump("routers=a=b\n").unwrap();
    assert_eq!(m.get(Attr::Routers), Some("a=b".to_string()));
}

#[test]
fn crlf_lines_and_missing_final_newline() {
    let m = parse_dump("ip_address=10.1.1.1\r\nrouters=10.1.1.254").unwrap();
    assert_eq!(m.get(Attr::IpAddress), Some("10.1.1.1".to_string()));
    assert_eq!(m.get(Attr::Routers), Some("10.1.1.254".to_string()));
}

#[test]
fn empty_dump_carries_diagnostics() {
    match extract_attributes(b"\n", b"dhcpcd: no such interface\n") {
        Err(DumpError::Empty(d)) => assert_eq!(d, "dhcpcd: no such interface\n"),
        other => panic!("unexpected {:?}", other.map(|_| ())),
    }
}

#[test]
fn invalid_output_is_encoding_error() {
    assert!(matches!(extract_attributes(b"ip_address=\xff\xfe\n", b""), Err(DumpError::Encoding)));
}

#[test]
fn invalid_diagnostics_is_encoding_error() {
    assert!(matches!(extract_attributes(b"", b"\xc3\x28"), Err(DumpError::Encoding)));
}

#[test]
fn quotes_stripped_when_enclosing() {
    assert_eq!(strip_quotes("'10.0.0.1'"), "10.0.0.1");
    assert_eq!(strip_quotes("''"), "");
}

#[test]
fn quotes_kept_when_not_enclosing() {
    assert_eq!(strip_quotes("it's"), "it's");
    assert_eq!(strip_quotes("'open"), "'open");
    assert_eq!(strip_quotes("plain"), "plain");
}

#[test]
fn lone_quote_becomes_empty() {
    assert_eq!(strip_quotes("'"), "");
    let m = parse_dump("routers='\n").unwrap();
    assert_eq!(m.get(Attr::Routers), Some(String::new()));
}

#[test]
fn attribute_names() {
    assert_eq!(Attr::SubnetCidr.name(), "subnet_cidr");
    let name: Vec<char> = "domain_name_servers".chars().collect();
    assert_eq!(attr_named(&name), Some(Attr::DomainNameServers));
    let other: Vec<char> = "ip_addres".chars().collect();
    assert_eq!(attr_named(&other), None);
}

#[test]
fn map_insert_replaces() {
    let mut m = AttributeMap::new();
    assert_eq!(m.get(Attr::Routers), None);
    m.insert(Attr::Routers, "1.2.3.4".to_string());
    m.insert(Attr::Routers, "5.6.7.8".to_string());
    assert_eq!(m.get(Attr::Routers), Some("5.6.7.8".to_string()));
    assert_eq!(m.get(Attr::IpAddress), None);
}
