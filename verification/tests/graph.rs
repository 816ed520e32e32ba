use pci_graph::machine::Machine;

fn machine_from(input: &str) -> Machine {
    let mut m = Machine::new();
    m.parse(input.as_bytes());
    m
}

fn rendered(input: &str) -> String {
    let m = machine_from(input);
    let mut out: Vec<u8> = Vec::new();
    m.write_graph(&mut out).expect("render should succeed");
    String::from_utf8(out).expect("output should be text")
}

const ROOT_PORT: &str = "0000:00:01.0 PCI bridge: Intel [8086:1901] (rev 07)\n\
\tCapabilities: [40] PCI Express (v2) Root Port (Slot+), Port #1\n\
\tBus: primary=00, secondary=02, subordinate=02, sec-latency=0\n\
\tLnkCap:\tPort #1, Speed 8.0GT/s, Width x16\n";

const ENDPOINT: &str = "0000:02:00.0 Ethernet controller: Intel [8086:1563] (rev 01)\n\
\tCapabilities: [a0] PCI Express (v2) Endpoint, MSI 00\n\
\tLnkSta:\tSpeed 8.0GT/s (ok), Width x8 (ok)\n";

#[test]
fn end_to_end_root_port_with_endpoint() {
    let input = format!("{}\n{}", ROOT_PORT, ENDPOINT);
    let s = rendered(&input);
    assert!(s.starts_with("graph pci {\n\trankdir=LR;\n"));
    assert!(s.ends_with("}\n"));
    assert!(s.contains("\t\"0000:00:01.0\" [ label=\"Root port\\n0000:00:01.0\" shape=rectangle ];"));
    // different identities, so the edge carries the endpoint's negotiated link
    assert!(s.contains("\t\"0000:00:01.0\" -- \"0000:02:00.0\" [ label=\"8GT/s x8\" ];"));
    assert!(s.contains("\t\"0000:02:00.0\" [ label=\"Intel X550\\n0000:02:00.0\" ];"));
}

#[test]
fn root_port_without_secondary_bus_is_skipped() {
    let input = "0000:00:00.0 Host bridge [8086:1234]\n\
\tCapabilities: PCI Express (v2) Root Port (Slot+), Port #0\n";
    let s = rendered(input);
    assert!(!s.contains("Root port"));
    assert_eq!(s, "graph pci {\n\trankdir=LR;\n}\n");
}

#[test]
fn slot_resolved_through_parent_address_fallback() {
    // the firmware slot record points at the root port's own address, not
    // at device zero of the downstream bus
    let dmi = "Handle 0x0017, DMI type 9, 17 bytes\n\
System Slot Information\n\
\tDesignation: PCIE Slot 1\n\
\tType: x16 PCI Express 3\n\
\tBus Address: 0000:00:01.0\n";
    let input = format!("{}\n{}\n{}", dmi, ROOT_PORT, ENDPOINT);
    let s = rendered(&input);
    // found through the fallback: the intermediate keeps the bare parent name
    assert!(s.contains("\t\"0000:00:01.0\" [ label=\"PCIE Slot 1\" shape=rectangle ];"));
    assert!(s.contains(" [ label=\"8GT/s x16\" ];"));
}

#[test]
fn slot_found_under_bus_address_gets_suffixed_vertex() {
    let dmi = "Handle 0x0017, DMI type 9, 17 bytes\n\
System Slot Information\n\
\tDesignation: PCIE Slot 2\n\
\tBus Address: 0000:02:00.0\n";
    let input = format!("{}\n{}\n{}", dmi, ROOT_PORT, ENDPOINT);
    let s = rendered(&input);
    assert!(s.contains("\t\"0000:00:01.0_02\" [ label=\"PCIE Slot 2\" shape=rectangle ];"));
}

#[test]
fn no_slot_emits_no_slot_node() {
    let input = format!("{}\n{}", ROOT_PORT, ENDPOINT);
    let s = rendered(&input);
    assert!(!s.contains("shape=rectangle ];\n\t\"0000:00:01.0\" -- \"0000:00:01.0_02\""));
    assert!(!s.contains("0000:00:01.0_02"));
}

#[test]
fn empty_bus_gets_placeholder_node() {
    let s = rendered(ROOT_PORT);
    assert!(s.contains("\t\"0000:00:01.0\" -- \"bus 0000:02\" [ label=\"8GT/s x16\" ];"));
    assert!(s.contains("\t\"bus 0000:02\" [ shape=rectangle ];"));
}

#[test]
fn unique_id_distrusts_upstream_serial_when_downstream_differs() {
    let upstream = "0000:02:00.0 PCI bridge [10b5:8747]\n\
\tCapabilities: PCI Express (v2) Upstream Port, MSI 00\n\
\tCapabilities: [100 v1] Device Serial Number 00-00-00-00-00-00-00-01\n\
\tBus: primary=02, secondary=03, subordinate=04, sec-latency=0\n";
    let downstream = "0000:03:00.0 PCI bridge [10b5:8747]\n\
\tCapabilities: [100 v1] Device Serial Number 00-00-00-00-00-00-00-02\n\
\tBus: primary=03, secondary=04, subordinate=04, sec-latency=0\n";
    let m = machine_from(&format!("{}\n{}", upstream, downstream));
    let up = pci_graph::pci_device::PciDevice::parse(upstream.as_bytes()).unwrap();
    assert_eq!(m.pci_device_unique_id(&up), Some(b"0000:02:00.0".to_vec()));
}

#[test]
fn unique_id_is_serial_when_downstream_agrees() {
    let upstream = "0000:02:00.0 PCI bridge [10b5:8747]\n\
\tCapabilities: PCI Express (v2) Upstream Port, MSI 00\n\
\tCapabilities: [100 v1] Device Serial Number 00-00-00-00-00-00-00-01\n\
\tBus: primary=02, secondary=03, subordinate=04, sec-latency=0\n";
    let downstream = "0000:03:00.0 PCI bridge [10b5:8747]\n\
\tCapabilities: [100 v1] Device Serial Number 00-00-00-00-00-00-00-01\n\
\tBus: primary=03, secondary=04, subordinate=04, sec-latency=0\n";
    let m = machine_from(&format!("{}\n{}", upstream, downstream));
    let up = pci_graph::pci_device::PciDevice::parse(upstream.as_bytes()).unwrap();
    assert_eq!(m.pci_device_unique_id(&up), Some(b"0000000000000001".to_vec()));
}

#[test]
fn unique_id_without_serial_is_address_text() {
    let m = machine_from(ENDPOINT);
    let ep = pci_graph::pci_device::PciDevice::parse(ENDPOINT.as_bytes()).unwrap();
    assert_eq!(m.pci_device_unique_id(&ep), Some(b"0000:02:00.0".to_vec()));
}

#[test]
fn cluster_indices_start_at_one_in_first_use_order() {
    let input = format!("{}\n{}", ROOT_PORT, ENDPOINT);
    let s = rendered(&input);
    // the first cluster registered is the root port's group
    assert!(s.contains("\tsubgraph cluster1 {\n\t\tlabel=\"PCH\";"));
    assert!(!s.contains("cluster0"));
}

#[test]
fn rendering_is_stable_across_runs() {
    let input = format!("{}\n{}", ROOT_PORT, ENDPOINT);
    let a = rendered(&input);
    let b = rendered(&input);
    assert_eq!(a, b);
}

#[test]
fn multi_function_endpoints_chain_in_a_cluster() {
    let f0 = "0000:02:00.0 Ethernet controller [8086:1563]\n\
\tCapabilities: PCI Express (v2) Endpoint, MSI 00\n\
\tLnkSta:\tSpeed 8.0GT/s (ok), Width x8 (ok)\n";
    let f1 = "0000:02:00.1 Ethernet controller [8086:1563]\n\
\tCapabilities: PCI Express (v2) Endpoint, MSI 00\n";
    let input = format!("{}\n{}\n{}", ROOT_PORT, f0, f1);
    let s = rendered(&input);
    assert!(s.contains("\t\"0000:02:00.0\" -- \"0000:02:00.1\";"));
    assert!(s.contains("\t\"0000:02:00.1\" [ label=\"Intel X550\\n0000:02:00.1\" ];"));
    assert!(s.contains("\t\t\"0000:02:00.0\";\n\t\t\"0000:02:00.1\";"));
}

#[test]
fn bus_devices_lists_addresses_in_order() {
    let m = machine_from(&format!("{}\n{}", ROOT_PORT, ENDPOINT));
    let on_two = m.bus_devices(0, 2);
    assert_eq!(on_two.len(), 1);
    assert_eq!(on_two[0].format(), b"0000:02:00.0".to_vec());
    assert_eq!(m.bus_devices(0, 7).len(), 0);
}

#[test]
fn later_blocks_replace_earlier_ones_at_the_same_address() {
    let first = "0000:02:00.0 Ethernet controller [8086:1563]\n";
    let second = "0000:02:00.0 Ethernet controller [dead:beef]\n";
    let m = machine_from(&format!("{}\n{}", first, second));
    assert_eq!(m.devices.len(), 1);
    assert_eq!(m.devices[0].device_id(), 0xbeef);
}

#[test]
fn unknown_devices_get_the_fallback_label() {
    let ep = "0000:02:00.0 Widget [dead:beef]\n\
\tCapabilities: PCI Express (v2) Endpoint, MSI 00\n\
\tLnkSta:\tSpeed 5GT/s (ok), Width x1 (ok)\n";
    let s = rendered(&format!("{}\n{}", ROOT_PORT, ep));
    assert!(s.contains("\t\"0000:02:00.0\" [ label=\"unknown dead:beef\\n0000:02:00.0\" ];"));
    assert!(s.contains(" [ label=\"5GT/s x1\" ];"));
}
