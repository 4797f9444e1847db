use hyprconfig::network::{
    build_interface, classify_interface, is_listed, next_ssid_step, parse_ip_addresses,
    resolve_ssid, sort_interfaces, ssid_from_output, InterfaceFiles, InterfaceKind,
    NetworkInterface, SsidSource, SsidStep,
};
use hyprconfig::wifi::{classify_security, parse_wifi_scan, sort_networks};

fn iface(name: &str, state: &str) -> NetworkInterface {
    let files = InterfaceFiles {
        operstate: Some(format!("{}\n", state)),
        address: None,
        mtu: None,
        rx_bytes: None,
        tx_bytes: None,
    };
    build_interface(name.to_string(), &files, Vec::new(), None)
}

#[test]
fn interfaces_up_first_then_by_name() {
    let sorted = sort_interfaces(vec![iface("eth0", "down"), iface("wlan0", "up"), iface("eth1", "up")]);
    let names: Vec<&str> = sorted.iter().map(|i| i.name.as_str()).collect();
    assert_eq!(names, vec!["eth1", "wlan0", "eth0"]);
}

#[test]
fn interfaces_other_states_sorted_by_name() {
    let sorted = sort_interfaces(vec![
        iface("wlp2s0", "dormant"),
        iface("docker0", "down"),
        iface("br0", "unknown"),
        iface("enp3s0", "up"),
    ]);
    let names: Vec<&str> = sorted.iter().map(|i| i.name.as_str()).collect();
    assert_eq!(names, vec!["enp3s0", "br0", "docker0", "wlp2s0"]);
}

#[test]
fn interface_kinds_by_prefix() {
    assert_eq!(classify_interface("wlan0"), InterfaceKind::WiFi);
    assert_eq!(classify_interface("enp3s0"), InterfaceKind::Ethernet);
    assert_eq!(classify_interface("eth0"), InterfaceKind::Ethernet);
    assert_eq!(classify_interface("br-lan"), InterfaceKind::Bridge);
    assert_eq!(classify_interface("docker0"), InterfaceKind::Virtual);
    assert_eq!(classify_interface("veth12"), InterfaceKind::Virtual);
    assert_eq!(classify_interface("tun0"), InterfaceKind::Other);
    assert!(!is_listed("lo"));
    assert!(is_listed("lo0"));
}

#[test]
fn interface_fields_and_defaults() {
    let files = InterfaceFiles {
        operstate: Some("up\n".to_string()),
        address: Some(" aa:bb:cc:dd:ee:ff\n".to_string()),
        mtu: None,
        rx_bytes: Some("12345\n".to_string()),
        tx_bytes: Some("not a number".to_string()),
    };
    let i = build_interface("wlan0".to_string(), &files, vec!["10.0.0.2/24".to_string()], Some("Home".to_string()));
    assert_eq!(i.state, "up");
    assert_eq!(i.mac_address, "aa:bb:cc:dd:ee:ff");
    assert_eq!(i.mtu, "0");
    assert_eq!(i.rx_bytes, 12345);
    assert_eq!(i.tx_bytes, 0);
    assert_eq!(i.interface_type, InterfaceKind::WiFi);
    assert_eq!(i.ssid, Some("Home".to_string()));
    assert_eq!(i.ip_addresses, vec!["10.0.0.2/24".to_string()]);
    let empty = InterfaceFiles { operstate: None, address: None, mtu: None, rx_bytes: None, tx_bytes: None };
    let e = build_interface("eth0".to_string(), &empty, Vec::new(), Some("Ignored".to_string()));
    assert_eq!(e.state, "unknown");
    assert_eq!(e.mac_address, "unknown");
    assert_eq!(e.ssid, None);
}

#[test]
fn ip_listing_skips_link_local() {
    let listing = "2: wlan0: <BROADCAST,MULTICAST,UP> mtu 1500\n    link/ether aa:bb:cc:dd:ee:ff brd ff:ff:ff:ff:ff:ff\n    inet 192.168.1.20/24 brd 192.168.1.255 scope global wlan0\n    inet6 2001:db8::1/64 scope global\n    inet6 fe80::1/64 scope link\n    inet\n";
    assert_eq!(parse_ip_addresses(listing), vec!["192.168.1.20/24".to_string(), "2001:db8::1/64".to_string()]);
    assert!(parse_ip_addresses("").is_empty());
}

#[test]
fn ssid_fallback_to_link_tool() {
    let r = resolve_ssid(Some("no:Neighbour\nno:\n"), Some("MyNetwork\n"), Some("SSID: Other\n"));
    assert_eq!(r, Some("MyNetwork".to_string()));
}

#[test]
fn ssid_first_tool_wins() {
    let r = resolve_ssid(Some("no:Other\nyes:Office\n"), Some("MyNetwork\n"), None);
    assert_eq!(r, Some("Office".to_string()));
}

#[test]
fn ssid_last_tool_and_absent() {
    let r = resolve_ssid(None, Some("  \n"), Some("Connected to 00:11:22:33:44:55 (on wlan0)\n\tSSID: Cafe Net\n\tfreq: 2412\n"));
    assert_eq!(r, Some("Cafe Net".to_string()));
    assert_eq!(resolve_ssid(None, None, None), None);
    assert_eq!(resolve_ssid(Some("yes:\n"), Some(""), Some("Not connected.\n")), None);
}

#[test]
fn ssid_steps() {
    assert!(matches!(next_ssid_step(SsidSource::NetworkManager, None), SsidStep::Ask(SsidSource::LinkTool)));
    assert!(matches!(next_ssid_step(SsidSource::LinkTool, None), SsidStep::Ask(SsidSource::LinkStatus)));
    assert!(matches!(next_ssid_step(SsidSource::LinkStatus, None), SsidStep::Done(None)));
    match next_ssid_step(SsidSource::LinkTool, Some("X".to_string())) {
        SsidStep::Done(Some(s)) => assert_eq!(s, "X"),
        _ => panic!("a name ends the search"),
    }
    assert_eq!(ssid_from_output(SsidSource::NetworkManager, "yes:  Home Net \n"), Some("Home Net".to_string()));
}

#[test]
fn wifi_scan_collapses_duplicates_and_hidden() {
    let listing = "*:Home:80:WPA2:AA\\:BB:2412 MHz\n :Home:60:WPA2:CC\\:DD:5180 MHz\n ::90:WPA2:EE:2412 MHz\n :Cafe:70::FF:2437 MHz\nshort:line\n";
    let nets = parse_wifi_scan(listing);
    let names: Vec<&str> = nets.iter().map(|n| n.ssid.as_str()).collect();
    assert_eq!(names, vec!["Home", "Cafe"]);
    assert_eq!(nets[0].signal_strength, 80);
    assert!(nets[0].connected);
    assert_eq!(nets[0].security, "WPA2");
    assert_eq!(nets[1].security, "Open");
    assert!(!nets[1].connected);
    assert_eq!(nets[1].frequency, "2437 MHz");
}

#[test]
fn wifi_scan_bad_signal_is_zero() {
    let nets = parse_wifi_scan(" :Lab:strong:WEP:00:2412\n");
    assert_eq!(nets[0].signal_strength, 0);
    assert_eq!(nets[0].security, "WEP");
}

#[test]
fn wifi_security_classes() {
    assert_eq!(classify_security(""), "Open");
    assert_eq!(classify_security("WPA2 WPA3"), "WPA3");
    assert_eq!(classify_security("WPA1 WPA2"), "WPA2");
    assert_eq!(classify_security("WPA1"), "WPA");
    assert_eq!(classify_security("WEP"), "WEP");
    assert_eq!(classify_security("802.1X"), "802.1X");
}

#[test]
fn wifi_connected_first_then_signal() {
    let nets = parse_wifi_scan(" :A:40:WPA2:1:1\n :B:90:WPA2:2:2\n*:C:30:WPA2:3:3\n :D:90:WPA2:4:4\n");
    let sorted = sort_networks(nets);
    let names: Vec<&str> = sorted.iter().map(|n| n.ssid.as_str()).collect();
    assert_eq!(names, vec!["C", "B", "D", "A"]);
}
