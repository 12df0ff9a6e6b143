use portcall::ports::{
    describe, direct_ports, discover, is_phantom, type_file_path, Discovery, PortInfo, PortType,
    UsbPortInfo,
};

fn port(name: &str, port_type: PortType) -> PortInfo {
    PortInfo { port_name: name.to_string(), port_type }
}

fn usb(vid: u16, pid: u16, manufacturer: Option<&str>, product: Option<&str>) -> PortType {
    PortType::UsbPort(UsbPortInfo {
        vid,
        pid,
        manufacturer: manufacturer.map(|s| s.to_string()),
        product: product.map(|s| s.to_string()),
    })
}

#[test]
fn descriptions() {
    assert_eq!(describe(&PortType::BluetoothPort), "Bluetooth");
    assert_eq!(describe(&PortType::PciPort), "PCI");
    assert_eq!(describe(&PortType::Unknown), "Unknown");
    assert_eq!(
        describe(&usb(0x2341, 0x43, Some("Arduino"), Some("Uno"))),
        "USB  Arduino — Uno  (VID:PID 2341:0043)"
    );
    assert_eq!(
        describe(&usb(0, 0xFFFF, None, None)),
        "USB  unknown vendor — unknown product  (VID:PID 0000:ffff)"
    );
}

#[test]
fn only_legacy_slots_have_a_type_file() {
    assert_eq!(
        type_file_path(&port("/dev/ttyS3", PortType::Unknown)),
        Some("/sys/class/tty/ttyS3/type".to_string())
    );
    assert_eq!(type_file_path(&port("/dev/ttyS3", PortType::PciPort)), None);
    assert_eq!(type_file_path(&port("/dev/ttyUSB0", PortType::Unknown)), None);
    assert_eq!(type_file_path(&port("ttyS3", PortType::Unknown)), None);
}

#[test]
fn phantoms_are_slots_of_model_zero() {
    let slot = port("/dev/ttyS0", PortType::Unknown);
    assert!(is_phantom(&slot, &Some("0\n".to_string())));
    assert!(is_phantom(&slot, &Some(" 0 ".to_string())));
    assert!(!is_phantom(&slot, &Some("4\n".to_string())));
    assert!(!is_phantom(&slot, &Some("00".to_string())));
    assert!(!is_phantom(&slot, &None));
    assert!(!is_phantom(&port("/dev/ttyS0", PortType::PciPort), &Some("0".to_string())));
    assert!(!is_phantom(&port("/dev/ttyACM0", PortType::Unknown), &Some("0".to_string())));
}

#[test]
fn discovery_hides_phantoms() {
    let ports = vec![
        port("/dev/ttyS0", PortType::Unknown),
        port("/dev/ttyACM0", usb(1, 2, None, Some("P"))),
        port("/dev/ttyS1", PortType::Unknown),
    ];
    let files = vec![Some("0\n".to_string()), None, Some("4\n".to_string())];
    let names = |d: Discovery| match d {
        Discovery::Ports(list) => {
            list.into_iter().map(|e| (e.name, e.desc)).collect::<Vec<_>>()
        }
        _ => panic!("no ports"),
    };
    let shown = discover(&ports, &files, false);
    assert!(shown.message().is_none());
    assert_eq!(
        names(shown),
        vec![
            (
                "/dev/ttyACM0".to_string(),
                "USB  unknown vendor — P  (VID:PID 0001:0002)".to_string()
            ),
            ("/dev/ttyS1".to_string(), "Unknown".to_string()),
        ]
    );
    let all: Vec<String> = names(discover(&ports, &files, true)).into_iter().map(|e| e.0).collect();
    assert_eq!(all, vec!["/dev/ttyS0", "/dev/ttyACM0", "/dev/ttyS1"]);
}

#[test]
fn nothing_to_pick_from() {
    let none = discover(&[], &[], false);
    assert!(matches!(none, Discovery::NoPorts));
    assert_eq!(none.message(), Some("No serial ports found.".to_string()));

    let ports = vec![
        port("/dev/ttyS0", PortType::Unknown),
        port("/dev/ttyS1", PortType::Unknown),
    ];
    let files = vec![Some("0".to_string()), Some("0".to_string())];
    let phantoms = discover(&ports, &files, false);
    assert!(matches!(phantoms, Discovery::OnlyPhantoms(2)));
    assert_eq!(
        phantoms.message(),
        Some(
            "No usable serial ports found (2 phantom slot(s) hidden).\n\
             Plug in a device, or pass --all to see everything."
                .to_string()
        )
    );
    assert!(matches!(discover(&ports, &files, true), Discovery::Ports(_)));
}

#[test]
fn direct_path_is_the_only_entry() {
    let list = direct_ports("/dev/ttyACM0".to_string());
    assert_eq!(list.len(), 1);
    assert_eq!(list[0].name, "/dev/ttyACM0");
    assert_eq!(list[0].desc, "direct path");
}
