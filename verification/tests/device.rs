use pci_graph::pci_device::PciDevice;

fn dev(desc: &str) -> PciDevice {
    PciDevice::parse(desc.as_bytes()).expect("block should parse")
}

#[test]
fn parse_reads_address_and_ids() {
    let d = dev("0000:02:00.0 Ethernet controller: Intel X550 [8086:1563] (rev 01)\n");
    assert_eq!(d.addr().domain(), 0);
    assert_eq!(d.addr().bus(), 2);
    assert_eq!(d.addr().device(), 0);
    assert_eq!(d.addr().function(), 0);
    assert_eq!(d.vendor_id(), 0x8086);
    assert_eq!(d.device_id(), 0x1563);
}

#[test]
fn parse_defaults_missing_domain_to_zero() {
    let d = dev("02:00.1 Ethernet controller [8086:1563]\n");
    assert_eq!(d.addr().domain(), 0);
    assert_eq!(d.addr().bus(), 2);
    assert_eq!(d.addr().function(), 1);
}

#[test]
fn parse_rejects_blocks_without_ids() {
    assert!(PciDevice::parse(b"just some text\n").is_none());
    assert!(PciDevice::parse(b"0000:02:00.0 Ethernet controller, no ids\n").is_none());
}

#[test]
fn roles_follow_capability_phrases() {
    let rp = dev("00:01.0 PCI bridge [8086:1901]\n\tCapabilities: PCI Express (v2) Root Port (Slot+), Port #1\n");
    assert!(rp.is_root_port());
    assert!(!rp.is_endpoint());
    let up = dev("02:00.0 PCI bridge [10b5:8747]\n\tCapabilities: PCI Express (v2) Upstream Port, MSI 00\n");
    assert!(up.is_upstream_port());
    let ep = dev("03:00.0 Ethernet [8086:1563]\n\tCapabilities: PCI Express (v2) Endpoint, MSI 00\n");
    assert!(ep.is_endpoint());
    let lep = dev("03:00.1 VGA [1a03:2000]\n\tCapabilities: PCI Express (v2) Legacy Endpoint, MSI 00\n");
    assert!(lep.is_endpoint());
    let br = dev("04:00.0 PCI bridge [1a03:1150]\n\tCapabilities: PCI Express (v2) PCI-Express to PCI/PCI-X Bridge, MSI 00\n");
    assert!(br.is_pci_bridge());
}

#[test]
fn secondary_bus_reads_hex_pair() {
    let d = dev("00:01.0 PCI bridge [8086:1901]\n\tBus: primary=00, secondary=2a, subordinate=2f, sec-latency=0\n");
    assert_eq!(d.secondary_bus(), Some(0x2a));
    let none = dev("00:01.0 PCI bridge [8086:1901]\n\tBus: primary=00\n");
    assert_eq!(none.secondary_bus(), None);
}

#[test]
fn lnk_cap_reads_speed_and_width() {
    let d = dev("00:01.0 PCI bridge [8086:1901]\n\tLnkCap:\tPort #1, Speed 8.0GT/s, Width x16, ASPM\n");
    let cap = d.lnk_cap().unwrap();
    assert_eq!(cap.speed_tenths, 80);
    assert_eq!(cap.width, 16);
    let d2 = dev("00:01.0 PCI bridge [8086:1901]\n\tLnkCap:\tPort #3, Speed 2.5GT/s, Width x4\n");
    let cap2 = d2.lnk_cap().unwrap();
    assert_eq!(cap2.speed_tenths, 25);
    assert_eq!(cap2.width, 4);
}

#[test]
fn lnk_sta_downgraded_when_speed_is() {
    let d = dev("02:00.0 Eth [8086:1563]\n\tLnkCap:\tPort #0, Speed 8.0GT/s, Width x16\n\tLnkSta:\tSpeed 2.5GT/s (downgraded), Width x16 (ok)\n");
    let sta = d.lnk_sta().unwrap();
    assert_eq!(sta.speed_tenths, 25);
    assert_eq!(sta.width, 16);
    assert!(sta.downgraded);
}

#[test]
fn lnk_sta_not_downgraded_when_both_ok() {
    let d = dev("02:00.0 Eth [8086:1563]\n\tLnkSta:\tSpeed 8.0GT/s (ok), Width x16 (ok)\n");
    let sta = d.lnk_sta().unwrap();
    assert_eq!(sta.speed_tenths, 80);
    assert!(!sta.downgraded);
}

#[test]
fn lnk_sta_downgraded_when_width_is() {
    let d = dev("02:00.0 Eth [8086:1563]\n\tLnkSta:\tSpeed 8.0GT/s (ok), Width x4 (downgraded)\n");
    let sta = d.lnk_sta().unwrap();
    assert_eq!(sta.width, 4);
    assert!(sta.downgraded);
}

#[test]
fn serial_number_combines_groups_big_endian() {
    let d = dev("02:00.0 Eth [8086:1563]\n\tCapabilities: [100 v1] Device Serial Number 01-23-45-67-89-ab-cd-ef\n");
    assert_eq!(d.serial_number(), Some(0x0123456789abcdef));
    let none = dev("02:00.0 Eth [8086:1563]\n");
    assert_eq!(none.serial_number(), None);
}

#[test]
fn numa_node_is_optional() {
    let d = dev("05:00.0 Eth [8086:1563]\n\tNUMA node: 1\n");
    assert_eq!(d.numa_node(), Some(1));
    let none = dev("05:00.0 Eth [8086:1563]\n");
    assert_eq!(none.numa_node(), None);
}

#[test]
fn numa_node_digits_are_decimal() {
    let d = dev("05:00.0 Eth [8086:1563]\n\tNUMA node: 10\n");
    assert_eq!(d.numa_node(), Some(10));
    assert_eq!(d.device_group_name(), b"NUMA node #10".to_vec());
}

#[test]
fn group_name_bus_zero_without_numa_is_pch() {
    let d = dev("00:1f.0 ISA bridge [8086:a149]\n");
    assert_eq!(d.device_group_name(), b"PCH".to_vec());
}

#[test]
fn group_name_bus_five_with_numa_one() {
    let d = dev("05:00.0 Eth [8086:1563]\n\tNUMA node: 1\n");
    assert_eq!(d.device_group_name(), b"NUMA node #1".to_vec());
}

#[test]
fn group_name_other_variants() {
    let cpu = dev("05:00.0 Eth [8086:1563]\n");
    assert_eq!(cpu.device_group_name(), b"CPU".to_vec());
    let pch_numa = dev("00:1f.0 ISA bridge [8086:a149]\n\tNUMA node: 0\n");
    assert_eq!(pch_numa.device_group_name(), b"PCH (on NUMA node #0)".to_vec());
}

#[test]
fn short_name_lookup_known_and_unknown() {
    let known = dev("02:00.0 Eth [8086:1563]\n");
    assert_eq!(known.short_name(), Some("Intel X550"));
    let unknown = dev("02:00.0 Eth [dead:beef]\n");
    assert_eq!(unknown.short_name(), None);
}
