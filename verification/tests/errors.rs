use pci_graph::machine::Machine;
use pci_graph::render::RenderError;

fn render_err(input: &str) -> RenderError {
    let mut m = Machine::new();
    m.parse(input.as_bytes());
    let mut out: Vec<u8> = Vec::new();
    m.write_graph(&mut out).expect_err("render should abort")
}

#[test]
fn slot_without_parent_capability_is_fatal() {
    let input = "Handle 0x0017, DMI type 9, 17 bytes\n\
\tDesignation: PCIE Slot 1\n\
\tBus Address: 0000:00:01.0\n\
\n\
0000:00:01.0 PCI bridge [8086:1901]\n\
\tCapabilities: PCI Express (v2) Root Port (Slot+), Port #1\n\
\tBus: primary=00, secondary=02, subordinate=02, sec-latency=0\n";
    assert_eq!(render_err(input), RenderError::MissingLinkCapability);
}

#[test]
fn labeled_edge_without_link_status_is_fatal() {
    let input = "0000:00:01.0 PCI bridge [8086:1901]\n\
\tCapabilities: PCI Express (v2) Root Port (Slot+), Port #1\n\
\tBus: primary=00, secondary=02, subordinate=02, sec-latency=0\n\
\tLnkCap:\tPort #1, Speed 8.0GT/s, Width x16\n\
\n\
0000:02:00.0 Ethernet controller [8086:1563]\n\
\tCapabilities: PCI Express (v2) Endpoint, MSI 00\n";
    assert_eq!(render_err(input), RenderError::MissingLinkStatus);
}

#[test]
fn upstream_port_without_bus_range_is_fatal() {
    let input = "0000:00:01.0 PCI bridge [8086:1901]\n\
\tCapabilities: PCI Express (v2) Root Port (Slot+), Port #1\n\
\tBus: primary=00, secondary=02, subordinate=02, sec-latency=0\n\
\tLnkCap:\tPort #1, Speed 8.0GT/s, Width x16\n\
\n\
0000:02:00.0 PCI bridge [10b5:8747]\n\
\tCapabilities: PCI Express (v2) Upstream Port, MSI 00\n\
\tLnkSta:\tSpeed 8.0GT/s (ok), Width x16 (ok)\n";
    assert_eq!(render_err(input), RenderError::MissingSecondaryBus);
}

#[test]
fn circular_bus_wiring_is_refused() {
    // every record reports the same serial number, so no edge needs a link
    // status; bus 02 and bus 03 point at each other through the switch
    let input = "0000:00:01.0 PCI bridge [8086:1901]\n\
\tCapabilities: PCI Express (v2) Root Port (Slot+), Port #1\n\
\tCapabilities: [100 v1] Device Serial Number 00-00-00-00-00-00-00-01\n\
\tBus: primary=00, secondary=02, subordinate=ff, sec-latency=0\n\
\tLnkCap:\tPort #1, Speed 8.0GT/s, Width x16\n\
\n\
0000:02:00.0 PCI bridge [10b5:8747]\n\
\tCapabilities: PCI Express (v2) Upstream Port, MSI 00\n\
\tCapabilities: [100 v1] Device Serial Number 00-00-00-00-00-00-00-01\n\
\tBus: primary=02, secondary=03, subordinate=ff, sec-latency=0\n\
\n\
0000:03:00.0 PCI bridge [10b5:8747]\n\
\tCapabilities: [100 v1] Device Serial Number 00-00-00-00-00-00-00-01\n\
\tBus: primary=03, secondary=02, subordinate=ff, sec-latency=0\n";
    assert_eq!(render_err(input), RenderError::TooDeep);
}
