use fanalog::catalog::{collect_available_ports, device_id_for, Catalog, PortListing, Transport};

fn usb(name: &str, serial: Option<&str>) -> PortListing {
    PortListing {
        port_name: name.to_string(),
        transport: Transport::Usb { serial_number: serial.map(|s| s.to_string()) },
    }
}

fn other(name: &str) -> PortListing {
    PortListing { port_name: name.to_string(), transport: Transport::Other }
}

fn entries(c: &Catalog) -> Vec<(String, String)> {
    (0..c.len()).map(|i| (c.entry(i).port_name.clone(), c.entry(i).device_id.clone())).collect()
}

#[test]
fn serial_number_is_device_id() {
    let c = collect_available_ports(&vec![usb("portA", Some("SN123"))]);
    assert_eq!(entries(&c), vec![("portA".to_string(), "SN123".to_string())]);
}

#[test]
fn missing_serial_falls_back_to_port_name() {
    let c = collect_available_ports(&vec![usb("portA", None)]);
    assert_eq!(entries(&c), vec![("portA".to_string(), "portA".to_string())]);
}

#[test]
fn empty_serial_falls_back_to_port_name() {
    assert_eq!(device_id_for(&"portB".to_string(), &Some(String::new())), "portB");
    assert_eq!(device_id_for(&"portB".to_string(), &Some("X9".to_string())), "X9");
}

#[test]
fn non_usb_ports_are_left_out() {
    let c = collect_available_ports(&vec![other("ttyS0"), usb("ttyUSB0", Some("A1")), other("rfcomm0")]);
    assert_eq!(entries(&c), vec![("ttyUSB0".to_string(), "A1".to_string())]);
}

#[test]
fn first_listing_of_a_port_wins() {
    let c = collect_available_ports(&vec![
        usb("ttyA", Some("first")),
        usb("ttyB", None),
        usb("ttyA", Some("second")),
    ]);
    assert_eq!(
        entries(&c),
        vec![("ttyA".to_string(), "first".to_string()), ("ttyB".to_string(), "ttyB".to_string())]
    );
    assert_eq!(c.device_id_of(&"ttyA".to_string()), Some("first".to_string()));
    assert_eq!(c.device_id_of(&"ttyC".to_string()), None);
    assert!(c.contains_port(&"ttyB".to_string()));
}

#[test]
fn repeated_discovery_gives_the_same_snapshot() {
    let listing = vec![usb("a", Some("S1")), other("b"), usb("c", None), usb("a", Some("S2"))];
    let first = entries(&collect_available_ports(&listing));
    for _ in 0..3 {
        assert_eq!(entries(&collect_available_ports(&listing)), first);
    }
}

#[test]
fn empty_enumeration_gives_empty_snapshot() {
    assert_eq!(collect_available_ports(&vec![]).len(), 0);
    assert_eq!(Catalog::empty().len(), 0);
}
