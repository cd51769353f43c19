use update_dhcpcd_profile::attrs::{Attr, AttributeMap};
use update_dhcpcd_profile::profile::{document_lines, replace_profile, text_lines};

fn doc(lines: &[&str]) -> Vec<String> {
    lines.iter().map(|l| l.to_string()).collect()
}

fn ip_map(ip: &str) -> AttributeMap {
    let mut m = AttributeMap::new();
    m.insert(Attr::IpAddress, ip.to_string());
    m
}

#[test]
fn scenario_replace_existing_block() {
    let d = doc(&["line1", "profile eth0", "static ip_address=1.2.3.4", "line2"]);
    let r = replace_profile(&d, "eth0", &ip_map("9.9.9.9"));
    // no later header closes the block, so it runs to the end and takes "line2"
    assert_eq!(r, doc(&["line1", "", "profile eth0", "static ip_address=9.9.9.9"]));
}

#[test]
fn replace_block_closed_by_next_header() {
    let d = doc(&["line1", "profile eth0", "static ip_address=1.2.3.4", "profile wlan0", "line2"]);
    let r = replace_profile(&d, "eth0", &ip_map("9.9.9.9"));
    assert_eq!(
        r,
        doc(&["line1", "profile wlan0", "line2", "", "profile eth0", "static ip_address=9.9.9.9"])
    );
}

#[test]
fn scenario_no_existing_block() {
    let d = doc(&["interface wlan0", "profile wlan0", "static routers=1.1.1.1"]);
    let r = replace_profile(&d, "eth0", &ip_map("9.9.9.9"));
    assert_eq!(
        r,
        doc(&[
            "interface wlan0",
            "profile wlan0",
            "static routers=1.1.1.1",
            "",
            "profile eth0",
            "static ip_address=9.9.9.9",
        ])
    );
}

#[test]
fn empty_document_and_empty_map() {
    let r = replace_profile(&Vec::new(), "eth0", &AttributeMap::new());
    assert_eq!(r, doc(&["", "profile eth0"]));
}

#[test]
fn values_written_in_attribute_order() {
    let mut m = AttributeMap::new();
    m.insert(Attr::SubnetCidr, "24".to_string());
    m.insert(Attr::Routers, "192.168.1.1".to_string());
    m.insert(Attr::IpAddress, "192.168.1.42".to_string());
    m.insert(Attr::DomainNameServers, "1.1.1.1".to_string());
    m.insert(Attr::BroadcastAddress, "192.168.1.255".to_string());
    let r = replace_profile(&Vec::new(), "wlan0", &m);
    assert_eq!(
        r,
        doc(&[
            "",
            "profile wlan0",
            "static broadcast_address=192.168.1.255",
            "static domain_name_servers=1.1.1.1",
            "static ip_address=192.168.1.42",
            "static routers=192.168.1.1",
            "static subnet_cidr=24",
        ])
    );
}

#[test]
fn other_profiles_and_plain_lines_preserved() {
    let d = doc(&[
        "hostname",
        "profile a",
        "static ip_address=1.1.1.1",
        "profile b",
        "static ip_address=2.2.2.2",
        "static routers=2.2.2.1",
        "profile c",
        "option x",
    ]);
    let r = replace_profile(&d, "a", &ip_map("3.3.3.3"));
    assert_eq!(
        r,
        doc(&[
            "hostname",
            "profile b",
            "static ip_address=2.2.2.2",
            "static routers=2.2.2.1",
            "profile c",
            "option x",
            "",
            "profile a",
            "static ip_address=3.3.3.3",
        ])
    );
}

#[test]
fn block_runs_to_end_of_document() {
    let d = doc(&["x", "profile a", "static ip_address=1.1.1.1", "", "trailing"]);
    let r = replace_profile(&d, "a", &ip_map("4.4.4.4"));
    assert_eq!(r, doc(&["x", "", "profile a", "static ip_address=4.4.4.4"]));
}

#[test]
fn similar_names_are_not_the_target() {
    let d = doc(&["profile eth0x", "k", "profile  eth0", "j", "profileeth0", "i"]);
    let r = replace_profile(&d, "eth0", &AttributeMap::new());
    let mut expected = d.clone();
    expected.push(String::new());
    expected.push("profile eth0".to_string());
    assert_eq!(r, expected);
}

#[test]
fn repeated_headers_all_dropped() {
    let d = doc(&["profile a", "1", "profile b", "2", "profile a", "3"]);
    let r = replace_profile(&d, "a", &AttributeMap::new());
    assert_eq!(r, doc(&["profile b", "2", "", "profile a"]));
}

#[test]
fn editing_twice_adds_one_blank_line() {
    let d = doc(&["line1", "profile eth0", "static ip_address=1.2.3.4", "profile b", "line2"]);
    let m = ip_map("9.9.9.9");
    let once = replace_profile(&d, "eth0", &m);
    let twice = replace_profile(&once, "eth0", &m);
    assert_eq!(
        twice,
        doc(&["line1", "profile b", "line2", "", "", "profile eth0", "static ip_address=9.9.9.9"])
    );
    let mut once_plus_blank = once.clone();
    once_plus_blank.insert(3, String::new());
    assert_eq!(twice, once_plus_blank);
}

#[test]
fn text_split_into_lines() {
    assert_eq!(text_lines("a\r\nb\n\nc"), doc(&["a", "b", "", "c"]));
    assert_eq!(text_lines("a\n"), doc(&["a"]));
    assert_eq!(text_lines(""), Vec::<String>::new());
    assert_eq!(text_lines("\n"), doc(&[""]));
}

#[test]
fn document_bytes_decoded() {
    assert_eq!(document_lines(b"x=1\nprofile a\n"), Some(doc(&["x=1", "profile a"])));
    assert_eq!(document_lines(b"\xff\n"), None);
}
