use nmc::deploy::{connection_file_stem, keyfile_path, render_connection_file};
use nmc::identify::identify_host;
use nmc::reconcile::detect_local_interfaces;
use nmc::store::normalize_hosts;
use nmc::types::{Host, Interface, Nic, RenameMap};

fn iface(name: &str, mac: Option<&str>, ty: &str) -> Interface {
    Interface {
        logical_name: name.to_string(),
        connection_ids: vec![],
        mac_address: mac.map(|m| m.to_string()),
        interface_type: ty.to_string(),
    }
}

#[test]
fn identify_host_successfully() {
    let hosts = vec![
        Host {
            hostname: "h1".to_string(),
            interfaces: vec![iface("eth0", Some("00:11:22:33:44:55"), "ethernet")],
        },
        Host {
            hostname: "h2".to_string(),
            interfaces: vec![iface("", Some("10:10:10:10:10:10"), "")],
        },
    ];
    let interfaces = vec![
        Nic {
            name: "eth0".to_string(),
            mac_addr: Some("00:11:22:33:44:55".to_string()),
        },
        Nic {
            name: "eth0".to_string(),
            mac_addr: Some("00:10:20:30:40:50".to_string()),
        },
    ];

    let host = identify_host(hosts, &interfaces).unwrap();
    assert_eq!(host.hostname, "h1");
    assert_eq!(
        host.interfaces,
        vec![iface("eth0", Some("00:11:22:33:44:55"), "ethernet")]
    );
}

#[test]
fn identify_host_fails() {
    let hosts = vec![
        Host {
            hostname: "h1".to_string(),
            interfaces: vec![iface("eth0", Some("10:20:30:40:50:60"), "ethernet")],
        },
        Host {
            hostname: "h2".to_string(),
            interfaces: vec![iface("", Some("00:10:20:30:40:50"), "")],
        },
    ];
    let interfaces = vec![Nic {
        name: "eth0".to_string(),
        mac_addr: Some("00:11:22:33:44:55".to_string()),
    }];

    assert!(identify_host(hosts, &interfaces).is_none())
}

#[test]
fn identify_host_prefers_first_declared_match() {
    let shared = Some("00:11:22:33:44:55");
    let hosts = vec![
        Host {
            hostname: "first".to_string(),
            interfaces: vec![iface("eth0", shared, "ethernet")],
        },
        Host {
            hostname: "second".to_string(),
            interfaces: vec![iface("eth0", shared, "ethernet")],
        },
    ];
    let nics = vec![Nic {
        name: "ens1f0".to_string(),
        mac_addr: Some("00:11:22:33:44:55".to_string()),
    }];

    let host = identify_host(hosts, &nics).unwrap();
    assert_eq!(host.hostname, "first");
}

#[test]
fn identify_host_ignores_nics_without_mac() {
    let hosts = vec![Host {
        hostname: "h1".to_string(),
        interfaces: vec![iface("eth0", None, "ethernet")],
    }];
    let nics = vec![Nic {
        name: "eth0".to_string(),
        mac_addr: None,
    }];

    assert!(identify_host(hosts, &nics).is_none());
}

#[test]
fn detect_interface_differences() {
    let host = Host {
        hostname: "node1".to_string(),
        interfaces: vec![
            iface("eth0", Some("00:11:22:33:44:55"), "ethernet"),
            iface("eth0.1365", None, "vlan"),
            iface("eth2", Some("00:11:22:33:44:56"), "ethernet"),
            iface("eth2.bridge", None, "linux-bridge"),
            iface("bond0", Some("00:11:22:33:44:58"), "bond"),
        ],
    };
    let interfaces = vec![
        Nic {
            name: "eth0".to_string(),
            mac_addr: Some("00:11:22:33:44:55".to_string()),
        },
        Nic {
            // VLAN
            name: "eth0.1365".to_string(),
            mac_addr: Some("00:11:22:33:44:55".to_string()),
        },
        Nic {
            name: "ens1f0".to_string(),
            mac_addr: Some("00:11:22:33:44:56".to_string()),
        },
    ];

    let local_interfaces = detect_local_interfaces(&host, &interfaces);
    assert_eq!(local_interfaces.len(), 2);
    assert_eq!(
        local_interfaces.get("eth2"),
        Some(&"ens1f0".to_string())
    );
    assert_eq!(
        local_interfaces.get("eth2.bridge"),
        Some(&"ens1f0.bridge".to_string())
    );
    assert_eq!(local_interfaces.get("eth0"), None);
    assert_eq!(local_interfaces.get("eth0.1365"), None);
    assert_eq!(local_interfaces.get("bond0"), None);
}

#[test]
fn reconcile_skips_nic_already_named_like_host_interface() {
    // The NIC carrying the matching MAC already bears the preconfigured
    // name, so there is no true rename and no map entry.
    let host = Host {
        hostname: "node1".to_string(),
        interfaces: vec![iface("eth0", Some("00:11:22:33:44:55"), "ethernet")],
    };
    let nics = vec![Nic {
        name: "eth0".to_string(),
        mac_addr: Some("00:11:22:33:44:55".to_string()),
    }];

    let map = detect_local_interfaces(&host, &nics);
    assert_eq!(map.len(), 0);
    assert_eq!(map.get("eth0"), None);
}

#[test]
fn generate_keyfile_path() {
    assert_eq!(
        keyfile_path("some-dir", "eth0"),
        Some("some-dir/eth0.nmconnection".to_string())
    );
    assert_eq!(
        keyfile_path("some-dir", "eth0.1234"),
        Some("some-dir/eth0.1234.nmconnection".to_string())
    );
    assert!(keyfile_path("some-dir", "").is_none());
    assert!(keyfile_path("", "eth0").is_none());
}

#[test]
fn connection_file_stem_requires_profile_extension() {
    assert_eq!(
        connection_file_stem("eth0.nmconnection"),
        Some("eth0".to_string())
    );
    assert_eq!(
        connection_file_stem("eth0.1365.nmconnection"),
        Some("eth0.1365".to_string())
    );
    assert_eq!(connection_file_stem("eth0.txt"), None);
    assert_eq!(connection_file_stem("eth0"), None);
    assert_eq!(connection_file_stem(".nmconnection"), None);
}

#[test]
fn render_replaces_name_and_content() {
    let mut map = RenameMap::new();
    map.insert("eth2".to_string(), "ens1f0".to_string());
    let contents = "[connection]\nid=eth2\ninterface-name=eth2\n";

    let (name, text) = render_connection_file("eth2", &map, contents);
    assert_eq!(name, "ens1f0");
    assert_eq!(text, "[connection]\nid=ens1f0\ninterface-name=ens1f0\n");

    let (name, text) = render_connection_file("bond0", &map, "[connection]\nid=bond0\n");
    assert_eq!(name, "bond0");
    assert_eq!(text, "[connection]\nid=bond0\n");
}

#[test]
fn render_is_deterministic() {
    let mut map = RenameMap::new();
    map.insert("eth2".to_string(), "ens1f0".to_string());
    let contents = "[connection]\nid=eth2\ninterface-name=eth2\n";

    let first = render_connection_file("eth2", &map, contents);
    let second = render_connection_file("eth2", &map, contents);
    assert_eq!(first, second);
}

#[test]
fn rename_map_insert_overrides_and_len_counts_keys() {
    let mut map = RenameMap::new();
    map.insert("eth0".to_string(), "ens1".to_string());
    map.insert("eth0".to_string(), "ens2".to_string());
    map.insert("eth1".to_string(), "ens3".to_string());
    assert_eq!(map.len(), 2);
    assert_eq!(map.get("eth0"), Some(&"ens2".to_string()));
    assert_eq!(map.get("eth1"), Some(&"ens3".to_string()));
}

#[test]
fn normalize_hosts_lowercases_mac_addresses() {
    let mut hosts = vec![Host {
        hostname: "node1".to_string(),
        interfaces: vec![
            iface("eth0", Some("FE:C4:05:42:8B:AA"), "ethernet"),
            iface("eth0.1365", None, "vlan"),
        ],
    }];
    normalize_hosts(&mut hosts);
    assert_eq!(
        hosts[0].interfaces[0].mac_address,
        Some("fe:c4:05:42:8b:aa".to_string())
    );
    assert_eq!(hosts[0].interfaces[1].mac_address, None);
    assert_eq!(hosts[0].hostname, "node1");
}

#[test]
fn normalized_hosts_match_lowercase_nic_macs() {
    let mut hosts = vec![Host {
        hostname: "node1".to_string(),
        interfaces: vec![iface("eth0", Some("AA:BB:CC:DD:EE:FF"), "ethernet")],
    }];
    normalize_hosts(&mut hosts);
    let nics = vec![Nic {
        name: "ens1f0".to_string(),
        mac_addr: Some("aa:bb:cc:dd:ee:ff".to_string()),
    }];

    let host = identify_host(hosts, &nics).unwrap();
    assert_eq!(host.hostname, "node1");
}

#[test]
fn apply_scenario_renames_and_copies() {
    // End to end over the apply-side logic: identification, reconciliation
    // and rendering for a host with a renamed physical interface.
    let hosts = vec![Host {
        hostname: "node1".to_string(),
        interfaces: vec![
            iface("eth0", Some("00:11:22:33:44:55"), "ethernet"),
            iface("eth2", Some("00:11:22:33:44:56"), "ethernet"),
            iface("bond0", Some("00:11:22:33:44:58"), "bond"),
        ],
    }];
    let nics = vec![
        Nic {
            name: "eth0".to_string(),
            mac_addr: Some("00:11:22:33:44:55".to_string()),
        },
        Nic {
            name: "ens1f0".to_string(),
            mac_addr: Some("00:11:22:33:44:56".to_string()),
        },
    ];

    let host = identify_host(hosts, &nics).unwrap();
    assert_eq!(host.hostname, "node1");

    let map = detect_local_interfaces(&host, &nics);
    assert_eq!(map.len(), 1);
    assert_eq!(map.get("eth2"), Some(&"ens1f0".to_string()));

    let eth0_src = "[connection]\nid=eth0\ninterface-name=eth0\n";
    let (name, text) = render_connection_file("eth0", &map, eth0_src);
    assert_eq!(
        keyfile_path("out", name.as_str()),
        Some("out/eth0.nmconnection".to_string())
    );
    assert_eq!(text, eth0_src);

    let eth2_src = "[connection]\nid=eth2\ninterface-name=eth2\n";
    let (name, text) = render_connection_file("eth2", &map, eth2_src);
    assert_eq!(
        keyfile_path("out", name.as_str()),
        Some("out/ens1f0.nmconnection".to_string())
    );
    assert_eq!(text, "[connection]\nid=ens1f0\ninterface-name=ens1f0\n");

    let bond_src = "[connection]\nid=bond0\ninterface-name=bond0\n";
    let (name, text) = render_connection_file("bond0", &map, bond_src);
    assert_eq!(
        keyfile_path("out", name.as_str()),
        Some("out/bond0.nmconnection".to_string())
    );
    assert_eq!(text, bond_src);
}
