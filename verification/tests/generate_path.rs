use nmc::error::NmcError;
use nmc::generate::{
    extract_hostname, extract_interfaces, generate_config, populate_connection_ids,
    validate_connection_ids, validate_interfaces,
};
use nmc::keyfile::keyfile_get;
use nmc::types::Interface;

fn iface(name: &str, mac: Option<&str>, ty: &str, ids: &[&str]) -> Interface {
    Interface {
        logical_name: name.to_string(),
        connection_ids: ids.iter().map(|s| s.to_string()).collect(),
        mac_address: mac.map(|m| m.to_string()),
        interface_type: ty.to_string(),
    }
}

#[test]
fn generate_config_fails_due_to_invalid_data() {
    let err = generate_config("<invalid>".to_string(), false).unwrap_err();
    assert!(err.message().contains("Invalid YAML string"))
}

fn generate_config_file(logical_name: String, connection_id: String) -> (String, String) {
    let filename = format!("{connection_id}.nmconnection");

    let mut config = configparser::ini::Ini::new();
    config.set("connection", "id", Some(connection_id));
    config.set("connection", "interface-name", Some(logical_name));

    (filename, config.writes())
}

#[test]
fn extract_interfaces_skips_loopback() {
    let net_state: nmstate::NetworkState = serde_yaml::from_str(
        r#"---
        interfaces:
          - name: eth1
            type: ethernet
            mac-address: FE:C4:05:42:8B:AA
          - name: bridge0
            type: linux-bridge
            mac-address: FE:C4:05:42:8B:AB
          - name: lo
            type: loopback
            mac-address: 00:00:00:00:00:00
        "#,
    )
    .unwrap();

    let config_files = vec![
        generate_config_file("eth1".to_string(), "eth1".to_string()),
        generate_config_file("bridge0".to_string(), "bridge0".to_string()),
    ];

    let mut interfaces = extract_interfaces(&net_state);
    populate_connection_ids(&mut interfaces, &config_files).expect("populate ids");
    interfaces.sort_by(|a, b| a.logical_name.cmp(&b.logical_name));

    assert_eq!(
        interfaces,
        vec![
            iface(
                "bridge0",
                Some("FE:C4:05:42:8B:AB"),
                "linux-bridge",
                &["bridge0"]
            ),
            iface("eth1", Some("FE:C4:05:42:8B:AA"), "ethernet", &["eth1"]),
        ]
    );
}

#[test]
fn validate_interfaces_missing_ethernet_interfaces() {
    let interfaces = vec![
        iface("eth3.1365", None, "vlan", &["eth3.1365"]),
        iface("bond0", None, "bond", &["bond0"]),
    ];

    let error = validate_interfaces(&interfaces, false).unwrap_err();
    assert_eq!(error.message(), "No Ethernet interfaces were provided")
}

#[test]
fn validate_interfaces_missing_mac_addresses() {
    let interfaces = vec![
        iface("eth0", Some("00:11:22:33:44:55"), "ethernet", &["eth0"]),
        iface("eth1", None, "ethernet", &["eth1"]),
        iface("eth2", Some("00:11:22:33:44:56"), "ethernet", &["eth2"]),
        iface("eth3", None, "ethernet", &["eth3"]),
        iface("eth3.1365", None, "vlan", &["eth3.1365"]),
        iface("bond0", Some("00:11:22:33:44:58"), "bond", &["bond0"]),
    ];

    assert_eq!(
        validate_interfaces(&interfaces, true).unwrap_err().message(),
        "Detected Ethernet interfaces without a MAC address: eth1, eth3"
    );

    assert!(validate_interfaces(&interfaces, false).is_ok())
}

#[test]
fn validate_interfaces_missing_connection_ids() {
    let interfaces = vec![
        iface("eth0", Some("00:11:22:33:44:55"), "ethernet", &["eth0"]),
        iface("eth0.1365", None, "vlan", &["eth0.1365"]),
        iface("bond0", None, "bond", &[]),
    ];

    assert_eq!(
        validate_connection_ids(&interfaces).unwrap_err().message(),
        "Detected interfaces without connection files: bond0"
    );
}

#[test]
fn validate_interfaces_successfully() {
    let interfaces = vec![
        iface("eth0", Some("00:11:22:33:44:55"), "ethernet", &["eth0"]),
        iface("eth0.1365", None, "vlan", &["eth0.1365"]),
        iface("bond0", None, "bond", &["bond0"]),
    ];

    assert!(validate_interfaces(&interfaces, true).is_ok());
    assert!(validate_interfaces(&interfaces, false).is_ok());
    assert!(validate_connection_ids(&interfaces).is_ok());
}

#[test]
fn extract_host_name() {
    assert_eq!(extract_hostname(""), None);
    assert_eq!(extract_hostname("node1"), Some("node1".to_string()));
    assert_eq!(
        extract_hostname("node1.example"),
        Some("node1.example".to_string())
    );
    assert_eq!(
        extract_hostname("node1.example.com"),
        Some("node1.example.com".to_string())
    );
    assert_eq!(
        extract_hostname("node1.example.com.yml"),
        Some("node1.example.com".to_string())
    );
    assert_eq!(
        extract_hostname("node1.example.com.yaml"),
        Some("node1.example.com".to_string())
    );
}

#[test]
fn populate_skips_loopback_profiles() {
    let mut interfaces = vec![iface("eth0", Some("00:11:22:33:44:55"), "ethernet", &[])];
    // A loopback profile is never attributed, and it never counts as
    // unidentifiable even without interface-name or mac-address.
    let config = vec![(
        "lo.nmconnection".to_string(),
        "[connection]\nid=lo\ntype=loopback\n".to_string(),
    )];

    assert!(populate_connection_ids(&mut interfaces, &config).is_ok());
    assert!(interfaces[0].connection_ids.is_empty());
}

#[test]
fn populate_fails_on_unidentifiable_profile() {
    let mut interfaces = vec![iface("eth0", Some("00:11:22:33:44:55"), "ethernet", &[])];
    let fake_config = "[connection]\nautoconnect=true\nid=ovs0-port\ntype=ovs-port\n";
    let config = vec![("fake.nmconnection".to_string(), fake_config.to_string())];

    assert_eq!(
        populate_connection_ids(&mut interfaces, &config)
            .unwrap_err()
            .message(),
        "No identifier found in connection file: fake.nmconnection (expected interface-name or mac-address)"
    );
}

#[test]
fn populate_fails_on_missing_connection_id() {
    let mut interfaces = vec![iface("eth0", Some("00:11:22:33:44:55"), "ethernet", &[])];
    let config = vec![(
        "eth0.nmconnection".to_string(),
        "[connection]\ninterface-name=eth0\n".to_string(),
    )];

    assert_eq!(
        populate_connection_ids(&mut interfaces, &config)
            .unwrap_err()
            .message(),
        "No connection id found in connection file: eth0.nmconnection"
    );
}

#[test]
fn populate_fails_on_unknown_interface() {
    let mut interfaces = vec![iface("eth0", Some("00:11:22:33:44:55"), "ethernet", &[])];
    let config = vec![(
        "eth7.nmconnection".to_string(),
        "[connection]\nid=eth7\ninterface-name=eth7\n".to_string(),
    )];

    assert_eq!(
        populate_connection_ids(&mut interfaces, &config)
            .unwrap_err()
            .message(),
        "No matching interface found for connection file: eth7.nmconnection"
    );
}

#[test]
fn populate_prefers_mac_strategy_over_name() {
    // The MAC strategy runs over all interfaces before any name matching:
    // the id goes to the interface whose MAC equals the profile's, not to a
    // MAC-less interface that happens to carry the declared name.
    let mut interfaces = vec![
        iface("n", None, "ethernet", &[]),
        iface("x", Some("00:11:22:33:44:55"), "ethernet", &[]),
    ];
    let config = vec![(
        "wired.nmconnection".to_string(),
        "[connection]\nid=wired\ninterface-name=n\n[ethernet]\nmac-address=00:11:22:33:44:55\n"
            .to_string(),
    )];

    assert!(populate_connection_ids(&mut interfaces, &config).is_ok());
    assert!(interfaces[0].connection_ids.is_empty());
    assert_eq!(interfaces[1].connection_ids, vec!["wired".to_string()]);
}

#[test]
fn populate_fails_on_ambiguous_mac_match() {
    let mut interfaces = vec![
        iface("eth0", Some("00:11:22:33:44:55"), "ethernet", &[]),
        iface("bond0", Some("00:11:22:33:44:55"), "bond", &[]),
    ];
    let config = vec![(
        "wired.nmconnection".to_string(),
        "[connection]\nid=wired\n[ethernet]\nmac-address=00:11:22:33:44:55\n".to_string(),
    )];

    assert_eq!(
        populate_connection_ids(&mut interfaces, &config)
            .unwrap_err()
            .message(),
        "Multiple matching interfaces found for connection file: wired.nmconnection"
    );
    assert!(interfaces[0].connection_ids.is_empty());
    assert!(interfaces[1].connection_ids.is_empty());
}

#[test]
fn populate_fails_on_ambiguous_name_match() {
    let mut interfaces = vec![
        iface("eth0", None, "ethernet", &[]),
        iface("eth0", None, "ethernet", &[]),
    ];
    let config = vec![(
        "eth0.nmconnection".to_string(),
        "[connection]\nid=eth0\ninterface-name=eth0\n".to_string(),
    )];

    assert_eq!(
        populate_connection_ids(&mut interfaces, &config)
            .unwrap_err()
            .message(),
        "Multiple matching interfaces found for connection file: eth0.nmconnection"
    );
}

#[test]
fn populate_name_fallback_ignores_differing_mac() {
    // The profile's MAC matches no interface, so the name strategy applies:
    // the interface named by the profile is matched even though it carries a
    // different MAC address.
    let mut interfaces = vec![iface("eth0", Some("aa:bb:cc:dd:ee:ff"), "ethernet", &[])];
    let config = vec![(
        "eth0.nmconnection".to_string(),
        "[connection]\nid=eth0\ninterface-name=eth0\n[ethernet]\nmac-address=00:11:22:33:44:99\n"
            .to_string(),
    )];

    assert!(populate_connection_ids(&mut interfaces, &config).is_ok());
    assert_eq!(interfaces[0].connection_ids, vec!["eth0".to_string()]);
}

#[test]
fn populate_matches_mac_case_insensitively() {
    let mut interfaces = vec![
        iface("eth0", Some("FE:C4:05:42:8B:AA"), "ethernet", &[]),
        iface("eth1", None, "ethernet", &[]),
    ];
    let config = vec![(
        "wired.nmconnection".to_string(),
        "[connection]\nid=wired\n[ethernet]\nmac-address=fe:c4:05:42:8b:aa\n".to_string(),
    )];

    assert!(populate_connection_ids(&mut interfaces, &config).is_ok());
    assert_eq!(interfaces[0].connection_ids, vec!["wired".to_string()]);
    assert!(interfaces[1].connection_ids.is_empty());
}

#[test]
fn populate_falls_back_to_interface_name() {
    let mut interfaces = vec![
        iface("eth0", Some("00:11:22:33:44:55"), "ethernet", &[]),
        iface("eth0.1365", None, "vlan", &[]),
    ];
    let config = vec![(
        "vlan.nmconnection".to_string(),
        "[connection]\nid=vlan1365\ninterface-name=eth0.1365\n[ethernet]\nmac-address=00:11:22:33:44:99\n"
            .to_string(),
    )];

    assert!(populate_connection_ids(&mut interfaces, &config).is_ok());
    assert!(interfaces[0].connection_ids.is_empty());
    assert_eq!(interfaces[1].connection_ids, vec!["vlan1365".to_string()]);
}

#[test]
fn strict_synthesis_reports_exactly_the_macless_ethernet_interfaces() {
    let data = r#"---
interfaces:
  - name: eth0
    type: ethernet
    state: up
    mac-address: 00:11:22:33:44:55
  - name: eth1
    type: ethernet
    state: up
"#;
    let err = generate_config(data.to_string(), true).unwrap_err();
    assert_eq!(
        err.message(),
        "Detected Ethernet interfaces without a MAC address: eth1"
    );
    assert!(matches!(err, NmcError::MissingMacAddresses(ref names) if names == &vec!["eth1".to_string()]));
}

#[test]
fn synthesis_attributes_generated_profiles() {
    let data = r#"---
interfaces:
  - name: eth0
    type: ethernet
    state: up
    mac-address: 00:11:22:33:44:55
    ipv4:
      dhcp: true
      enabled: true
"#;
    let (interfaces, config) = generate_config(data.to_string(), true).unwrap();

    let eth0 = interfaces
        .iter()
        .find(|i| i.logical_name == "eth0")
        .expect("eth0 present");
    assert_eq!(eth0.interface_type, "ethernet");
    assert!(!eth0.connection_ids.is_empty());

    // The generated profile is attributable: it names eth0 and carries an id.
    let (filename, content) = config
        .iter()
        .find(|(f, _)| f.contains("eth0"))
        .expect("a profile for eth0");
    assert!(filename.ends_with(".nmconnection"));
    assert_eq!(
        keyfile_get(content, "connection", "interface-name"),
        Some("eth0".to_string())
    );
    assert!(keyfile_get(content, "connection", "id").is_some());
}

#[test]
fn keyfile_lookup_reads_sections_comments_and_overrides() {
    let content = "\
# leading comment
[connection]
id=eth0
type = ethernet ; inline comment
[ethernet]
mac-address=00:11:22:33:44:55

[Connection]
id=eth0-final
";
    assert_eq!(
        keyfile_get(content, "connection", "id"),
        Some("eth0-final".to_string())
    );
    assert_eq!(
        keyfile_get(content, "connection", "type"),
        Some("ethernet".to_string())
    );
    assert_eq!(
        keyfile_get(content, "CONNECTION", "Type"),
        Some("ethernet".to_string())
    );
    assert_eq!(
        keyfile_get(content, "ethernet", "mac-address"),
        Some("00:11:22:33:44:55".to_string())
    );
    assert_eq!(keyfile_get(content, "connection", "missing"), None);
    assert_eq!(keyfile_get(content, "wifi", "id"), None);
}

#[test]
fn keyfile_last_binding_wins_even_without_value() {
    let content = "[connection]\nid=eth0\nid\n";
    assert_eq!(keyfile_get(content, "connection", "id"), None);

    let content = "[connection]\nid\nid=eth0\n";
    assert_eq!(
        keyfile_get(content, "connection", "id"),
        Some("eth0".to_string())
    );
}

#[test]
fn extract_hostname_keeps_names_with_leading_dot() {
    assert_eq!(extract_hostname(".yml"), Some(".yml".to_string()));
    assert_eq!(extract_hostname("node1.txt"), Some("node1.txt".to_string()));
    assert_eq!(extract_hostname("a.yml"), Some("a".to_string()));
}
