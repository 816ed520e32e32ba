use pci_graph::pci_addr::PciAddr;

#[test]
fn pack_unpack_round_trips() {
    let a = PciAddr::new(0x1234, 0xab, 3, 5);
    assert_eq!(a.domain(), 0x1234);
    assert_eq!(a.bus(), 0xab);
    assert_eq!(a.device(), 3);
    assert_eq!(a.function(), 5);
}

#[test]
fn devfn_packs_device_and_function() {
    let a = PciAddr::new(0, 0, 3, 5);
    assert_eq!(a.devfn, 29);
    assert_eq!(a.device(), 3);
    assert_eq!(a.function(), 5);
}

#[test]
fn devfn_decodes_29() {
    let a = PciAddr { domain: 0, bus: 0, devfn: 29 };
    assert_eq!(a.device(), 3);
    assert_eq!(a.function(), 5);
}

#[test]
fn format_is_fixed_width_lowercase_hex() {
    let a = PciAddr::new(0x1234, 0xab, 0x1f, 7);
    assert_eq!(a.format(), b"1234:ab:1f.7".to_vec());
    let b = PciAddr::new(0, 0, 1, 0);
    assert_eq!(b.format(), b"0000:00:01.0".to_vec());
}

#[test]
fn key_orders_lexicographically() {
    let lo = PciAddr::new(0, 1, 0, 0);
    let hi = PciAddr::new(0, 1, 0, 1);
    let hier = PciAddr::new(1, 0, 0, 0);
    assert!(lo.key() < hi.key());
    assert!(hi.key() < hier.key());
}
