//! The graph renderer: walks the topology from each root port and emits the
//! textual graph description, rebuilding the bus hierarchy from bus numbers
//! and addresses alone.

use vstd::prelude::*;
use vstd::string::StringSliceAdditionalSpecFns;

use crate::link::{LnkCap, LnkSta};
use crate::machine::{
    spec_bus_devices, spec_find_device, spec_unique_id, Machine,
};
use crate::pci_addr::PciAddr;
use crate::pci_device::{DeviceModel, PciDevice};

verus! {

/// Why a render run aborts: a port or bridge the walk already classified
/// lacks a field the description must state, or the switch cascade is deeper
/// than any real fabric can be.
#[derive(Clone, Copy, Debug, PartialEq, Eq, Structural)]
pub enum RenderError {
    /// A slot-bearing or childless bus's parent states no link capability.
    MissingLinkCapability,
    /// A bus's first device states no link status though its edge needs one.
    MissingLinkStatus,
    /// A port that must forward to a bus states no bus range.
    MissingSecondaryBus,
    /// The switch cascade exceeds the render depth, which admits any chain
    /// of distinct bus numbers.
    TooDeep,
}

/// The cluster table: the keys in order of first use. A key's cluster index
/// is its position here plus one, so indices are dense, start at one, and
/// follow first use.
#[derive(Debug)]
pub struct MachineWriteState {
    pub clusters: Vec<Vec<u8>>,
}

/// The first position of `id` in the table, if present.
pub open spec fn spec_cluster_pos(st: Seq<Seq<u8>>, id: Seq<u8>) -> Option<int>
    decreases st.len(),
{
    if st.len() == 0 {
        None
    } else if st[0] == id {
        Some(0int)
    } else {
        match spec_cluster_pos(st.drop_first(), id) {
            None => None,
            Some(p) => Some(p + 1),
        }
    }
}

/// The index handed out for `id`, and the table afterwards: a known key
/// keeps its first index, a new key is appended and numbered next.
pub open spec fn spec_register_cluster(st: Seq<Seq<u8>>, id: Seq<u8>) -> (int, Seq<Seq<u8>>) {
    match spec_cluster_pos(st, id) {
        Some(p) => (p + 1, st),
        None => (st.len() as int + 1, st.push(id)),
    }
}

impl MachineWriteState {
    /// The table as byte sequences, in first-use order.
    pub open spec fn model(self) -> Seq<Seq<u8>> {
        self.clusters@.map_values(|v: Vec<u8>| v@)
    }

    /// An empty table: no cluster has been numbered yet.
    pub fn new() -> (r: MachineWriteState)
        ensures
            r.model() == Seq::<Seq<u8>>::empty(),
    {
        let r = MachineWriteState { clusters: Vec::new() };
        proof {
            assert(r.model() =~= Seq::<Seq<u8>>::empty());
        }
        r
    }

    /// The cluster index for `identifier`: the one first handed out for it,
    /// or the next unused index for a key seen for the first time.
    pub fn get_cluster_index(&mut self, identifier: &[u8]) -> (r: usize)
        ensures
            ({
                let (ix, st2) = spec_register_cluster(old(self).model(), identifier@);
                r == ix && final(self).model() == st2
            }),
    {
        let ghost st = self.model();
        let mut i: usize = 0;
        proof {
            assert(st.subrange(0, st.len() as int) =~= st);
        }
        loop
            invariant
                st == self.model(),
                i <= st.len(),
                spec_cluster_pos(st, identifier@) == match spec_cluster_pos(
                    st.subrange(i as int, st.len() as int),
                    identifier@,
                ) {
                    None => None::<int>,
                    Some(p) => Some(p + i),
                },
            ensures
                st == self.model(),
                spec_cluster_pos(st, identifier@) is None,
            decreases st.len() - i,
        {
            if i >= self.clusters.len() {
                proof {
                    assert(st.subrange(st.len() as int, st.len() as int) =~= Seq::<
                        Seq<u8>,
                    >::empty());
                }
                break;
            }
            let ghost suf = st.subrange(i as int, st.len() as int);
            proof {
                assert(suf[0] == st[i as int]);
                assert(suf.drop_first() =~= st.subrange(i + 1, st.len() as int));
            }
            if crate::text::bytes_eq(self.clusters[i].as_slice(), identifier) {
                proof {
                    assert(spec_cluster_pos(st, identifier@) == Some(i as int));
                }
                return i + 1;
            }
            i += 1;
        }
        proof {
            assert(spec_cluster_pos(st, identifier@) is None);
        }
        self.clusters.push(crate::text::to_vec_copy(identifier));
        proof {
            assert(self.model() =~= st.push(identifier@));
        }
        self.clusters.len()
    }
}

/// A position found by the table search is a real, first occurrence.
proof fn lemma_cluster_pos_contains(st: Seq<Seq<u8>>, id: Seq<u8>)
    ensures
        match spec_cluster_pos(st, id) {
            Some(p) => 0 <= p < st.len() && st[p] == id && forall|j: int|
                0 <= j < p ==> st[j] != id,
            None => !st.contains(id),
        },
    decreases st.len(),
{
    if st.len() > 0 && st[0] != id {
        lemma_cluster_pos_contains(st.drop_first(), id);
        match spec_cluster_pos(st.drop_first(), id) {
            Some(p) => {
                assert(st.drop_first()[p] == st[p + 1]);
                assert(forall|j: int| 1 <= j < p + 1 ==> st.drop_first()[j - 1] == st[j]);
            },
            None => {
                if st.contains(id) {
                    let w = choose|w: int| 0 <= w < st.len() && st[w] == id;
                    assert(st.drop_first()[w - 1] == id);
                }
            },
        }
    }
}

/// Cluster numbering is dense and follows first use: a key already in the
/// table keeps the index of its first occurrence, a fresh key is appended
/// and receives the next index, one past the table's size. Indices
/// therefore start at one and grow by one per new key, and depend on the
/// table's content alone, so identical inputs number identically.
pub proof fn lemma_cluster_indices(st: Seq<Seq<u8>>, id: Seq<u8>)
    ensures
        ({
            let (ix, st2) = spec_register_cluster(st, id);
            &&& 1 <= ix <= st.len() + 1
            &&& st.contains(id) ==> ix <= st.len() && st2 == st && st[ix - 1] == id
                && (forall|j: int| 0 <= j < ix - 1 ==> st[j] != id)
            &&& !st.contains(id) ==> ix == st.len() + 1 && st2 == st.push(id)
        }),
{
    lemma_cluster_pos_contains(st, id);
    match spec_cluster_pos(st, id) {
        Some(p) => {
            assert(st.contains(id));
        },
        None => {},
    }
}

/// The name filed for the given address key, if any.
pub open spec fn spec_slot_lookup(slots: Seq<(PciAddr, Seq<u8>)>, key: int) -> Option<Seq<u8>>
    decreases slots.len(),
{
    if slots.len() == 0 {
        None
    } else if slots[0].0.spec_key() == key {
        Some(slots[0].1)
    } else {
        spec_slot_lookup(slots.drop_first(), key)
    }
}

/// The slot name of a bus: the name filed for device zero, function zero on
/// the bus, or — a firmware quirk on some platforms, whose slot records
/// point at the upstream bridge — the name filed for the parent's own
/// address.
pub open spec fn spec_slot_name(
    slots: Seq<(PciAddr, Seq<u8>)>,
    parent: DeviceModel,
    domain: u16,
    bus: u8,
) -> Option<Seq<u8>> {
    match spec_slot_lookup(slots, PciAddr { domain, bus, devfn: 0 }.spec_key()) {
        Some(n) => Some(n),
        None => spec_slot_lookup(slots, parent.addr.spec_key()),
    }
}

/// The slot name was found under the bus's own nominal address, not under
/// the parent's.
pub open spec fn spec_slot_direct(slots: Seq<(PciAddr, Seq<u8>)>, domain: u16, bus: u8) -> bool {
    spec_slot_lookup(slots, PciAddr { domain, bus, devfn: 0 }.spec_key()) is Some
}

/// The vertex that stands between a parent port and its bus: the parent's
/// address text, suffixed with the bus number when the slot was found under
/// the bus's own address, so that several slots hanging off one parent stay
/// distinct; bare otherwise.
pub open spec fn spec_intermediate(parent: DeviceModel, bus: u8, suffixed: bool) -> Seq<u8> {
    if suffixed {
        parent.addr.spec_text() + "_".spec_bytes() + crate::text::hex_seq(bus as nat, 2)
    } else {
        parent.addr.spec_text()
    }
}

/// A port role the walk classifies by capability phrase.
#[derive(Clone, Copy, Debug, PartialEq, Eq, Structural)]
pub enum Role {
    UpstreamPort,
    PciBridge,
    Endpoint,
}

pub open spec fn spec_role_matches(role: Role, d: Seq<u8>) -> bool {
    match role {
        Role::UpstreamPort => crate::text::contains_seq(
            d,
            crate::pci_device::upstream_port_marker(),
        ),
        Role::PciBridge => crate::text::contains_seq(d, crate::pci_device::pci_bridge_marker()),
        Role::Endpoint => crate::text::contains_seq(d, crate::pci_device::endpoint_marker())
            || crate::text::contains_seq(d, crate::pci_device::legacy_endpoint_marker()),
    }
}

/// The addresses whose filed record carries the role's phrase, in order.
pub open spec fn spec_role_filter(
    devs: Seq<DeviceModel>,
    addrs: Seq<PciAddr>,
    role: Role,
) -> Seq<PciAddr>
    decreases addrs.len(),
{
    if addrs.len() == 0 {
        Seq::<PciAddr>::empty()
    } else {
        spec_role_filter(devs, addrs.drop_last(), role) + if spec_role_matches(
            role,
            spec_find_device(devs, addrs.last().spec_key()).unwrap().desc,
        ) {
            seq![addrs.last()]
        } else {
            Seq::<PciAddr>::empty()
        }
    }
}

/// A device's display name: its short name when the identifier pair is
/// known, otherwise the pair itself marked unknown.
pub open spec fn spec_device_name(dm: DeviceModel) -> Seq<u8> {
    match crate::pci_device::spec_short_name(dm.vendor_id, dm.device_id) {
        Some(n) => n,
        None => "unknown ".spec_bytes() + crate::text::hex_seq(dm.vendor_id as nat, 4)
            + ":".spec_bytes() + crate::text::hex_seq(dm.device_id as nat, 4),
    }
}

/// One member line of a cluster, per address from `k` on.
pub open spec fn spec_node_lines(addrs: Seq<PciAddr>, k: int) -> Seq<u8>
    decreases addrs.len() - k + 1,
{
    if k < 0 || k >= addrs.len() {
        Seq::<u8>::empty()
    } else {
        "\t\t\"".spec_bytes() + addrs[k].spec_text() + "\";\n".spec_bytes() + spec_node_lines(
            addrs,
            k + 1,
        )
    }
}

/// One unlabeled edge from `a` to each address from `k` on, each preceded
/// by a blank line.
pub open spec fn spec_edge_lines(a: PciAddr, addrs: Seq<PciAddr>, k: int) -> Seq<u8>
    decreases addrs.len() - k + 1,
{
    if k < 0 || k >= addrs.len() {
        Seq::<u8>::empty()
    } else {
        "\n\t\"".spec_bytes() + a.spec_text() + "\" -- \"".spec_bytes() + addrs[k].spec_text()
            + "\";\n".spec_bytes() + spec_edge_lines(a, addrs, k + 1)
    }
}

/// The legacy segment behind a bridge: an unlabeled edge from the bridge and
/// a named node per device from `k` on.
pub open spec fn spec_bridge_children(
    devs: Seq<DeviceModel>,
    a: PciAddr,
    addrs: Seq<PciAddr>,
    k: int,
) -> Seq<u8>
    decreases addrs.len() - k + 1,
{
    if k < 0 || k >= addrs.len() {
        Seq::<u8>::empty()
    } else {
        let dm = spec_find_device(devs, addrs[k].spec_key()).unwrap();
        "\n\t\"".spec_bytes() + a.spec_text() + "\" -- \"".spec_bytes() + addrs[k].spec_text()
            + "\";\n\n\t\"".spec_bytes() + addrs[k].spec_text() + "\" [ label=\"".spec_bytes()
            + spec_device_name(dm) + "\\n".spec_bytes() + addrs[k].spec_text()
            + "\" ];\n".spec_bytes() + spec_bridge_children(devs, a, addrs, k + 1)
    }
}

/// The chain of a multi-function device: consecutive endpoints joined by
/// unlabeled edges, each newly drawn node named, from pair `k` on.
pub open spec fn spec_endpoint_chain(devs: Seq<DeviceModel>, eps: Seq<PciAddr>, k: int) -> Seq<
    u8,
>
    decreases eps.len() - k + 1,
{
    if k < 0 || k + 1 >= eps.len() {
        Seq::<u8>::empty()
    } else {
        let dm = spec_find_device(devs, eps[k + 1].spec_key()).unwrap();
        "\n\t\"".spec_bytes() + eps[k].spec_text() + "\" -- \"".spec_bytes() + eps[k
            + 1].spec_text() + "\";\n\t\"".spec_bytes() + eps[k + 1].spec_text()
            + "\" [ label=\"".spec_bytes() + spec_device_name(dm) + "\\n".spec_bytes() + eps[k
            + 1].spec_text() + "\" ];\n".spec_bytes() + spec_endpoint_chain(devs, eps, k + 1)
    }
}

/// Everything a bus emits before its devices are classified: the bus
/// comment, the slot node and its capability-labeled edge when a slot name
/// resolves, and the edge into the bus — to its first device, labeled with
/// that device's negotiated link unless parent and device share one
/// identity, or to a placeholder node when enumeration found nothing on a
/// wired bus.
/// The comment line that opens a bus.
pub open spec fn spec_head_comment(domain: u16, bus: u8) -> Seq<u8> {
    "\n\t# domain ".spec_bytes() + crate::text::hex_seq(domain as nat, 4)
        + " bus ".spec_bytes() + crate::text::hex_seq(bus as nat, 2) + "\n\n".spec_bytes()
}

/// The slot node and its capability-labeled edge, when a slot name
/// resolves; nothing when none does; refused when the parent states no
/// capability.
pub open spec fn spec_head_slot_part(
    slots: Seq<(PciAddr, Seq<u8>)>,
    parent: DeviceModel,
    domain: u16,
    bus: u8,
) -> Result<Seq<u8>, RenderError> {
    let slot = spec_slot_name(slots, parent, domain, bus);
    let inter = spec_intermediate(parent, bus, spec_slot_direct(slots, domain, bus));
    match slot {
        Some(name) => match crate::pci_device::spec_lnk_cap(parent.desc) {
            None => Err(RenderError::MissingLinkCapability),
            Some(cap) => Ok(
                "\t\"".spec_bytes() + parent.addr.spec_text() + "\" -- \"".spec_bytes() + inter
                    + "\" [ label=\"".spec_bytes() + cap.spec_label() + "\" ];\n\t\"".spec_bytes()
                    + inter + "\" [ label=\"".spec_bytes() + name
                    + "\" shape=rectangle ];\n".spec_bytes(),
            ),
        },
        None => Ok(Seq::<u8>::empty()),
    }
}

/// The edge into the bus: to its first device, labeled with that device's
/// negotiated link unless parent and device share one identity; or to a
/// placeholder node when enumeration found nothing on the bus.
pub open spec fn spec_head_tail(
    devs: Seq<DeviceModel>,
    slots: Seq<(PciAddr, Seq<u8>)>,
    parent: DeviceModel,
    domain: u16,
    bus: u8,
) -> Result<Seq<u8>, RenderError> {
    let bdevs = spec_bus_devices(devs, domain, bus);
    let slot = spec_slot_name(slots, parent, domain, bus);
    let inter = spec_intermediate(parent, bus, spec_slot_direct(slots, domain, bus));
    if bdevs.len() > 0 {
        let first = bdevs[0];
        let fdm = spec_find_device(devs, first.spec_key()).unwrap();
        match spec_unique_id(devs, parent) {
            None => Err(RenderError::MissingSecondaryBus),
            Some(pid) => match spec_unique_id(devs, fdm) {
                None => Err(RenderError::MissingSecondaryBus),
                Some(fid) => {
                    let label: Result<Seq<u8>, RenderError> = if pid != fid {
                        match crate::pci_device::spec_lnk_sta(fdm.desc) {
                            None => Err(RenderError::MissingLinkStatus),
                            Some(sta) => Ok(
                                " [ label=\"".spec_bytes() + sta.spec_label()
                                    + "\" ]".spec_bytes(),
                            ),
                        }
                    } else {
                        Ok(Seq::<u8>::empty())
                    };
                    match label {
                        Err(e) => Err(e),
                        Ok(lb) => Ok(
                            "\t\"".spec_bytes() + inter + "\" -- \"".spec_bytes()
                                + first.spec_text() + "\"".spec_bytes() + lb
                                + ";\n".spec_bytes(),
                        ),
                    }
                },
            },
        }
    } else {
        match crate::pci_device::spec_lnk_cap(parent.desc) {
            None => Err(RenderError::MissingLinkCapability),
            Some(cap) => {
                let busnode = "bus ".spec_bytes() + crate::text::hex_seq(domain as nat, 4)
                    + ":".spec_bytes() + crate::text::hex_seq(bus as nat, 2);
                let lb = if slot is None {
                    " [ label=\"".spec_bytes() + cap.spec_label() + "\" ]".spec_bytes()
                } else {
                    Seq::<u8>::empty()
                };
                Ok(
                    "\t\"".spec_bytes() + inter + "\" -- \"".spec_bytes() + busnode
                        + "\"".spec_bytes() + lb + ";\n\n\t\"".spec_bytes() + busnode
                        + "\" [ shape=rectangle ];\n".spec_bytes(),
                )
            },
        }
    }
}

/// Everything a bus emits before its devices are classified: the bus
/// comment, the slot node and its capability-labeled edge when a slot name
/// resolves, and the edge into the bus.
pub open spec fn spec_bus_head(
    devs: Seq<DeviceModel>,
    slots: Seq<(PciAddr, Seq<u8>)>,
    parent: DeviceModel,
    domain: u16,
    bus: u8,
) -> Result<Seq<u8>, RenderError> {
    match spec_head_slot_part(slots, parent, domain, bus) {
        Err(e) => Err(e),
        Ok(sp) => match spec_head_tail(devs, slots, parent, domain, bus) {
            Err(e) => Err(e),
            Ok(tp) => Ok(spec_head_comment(domain, bus) + sp + tp),
        },
    }
}

/// What one switch fabric bus emits for each upstream port from `k` on: the
/// switch cluster holding the upstream port and its downstream ports,
/// unlabeled internal edges, and one recursive walk per downstream port.
#[verifier::opaque]
pub open spec fn spec_upstream_loop(
    devs: Seq<DeviceModel>,
    slots: Seq<(PciAddr, Seq<u8>)>,
    st: Seq<Seq<u8>>,
    ups: Seq<PciAddr>,
    k: int,
    domain: u16,
    fuel: nat,
) -> Result<(Seq<u8>, Seq<Seq<u8>>), RenderError>
    decreases fuel, 2nat, ups.len() - k + 1,
{
    if k < 0 || k >= ups.len() {
        Ok((Seq::<u8>::empty(), st))
    } else {
        let a = ups[k];
        let dm = spec_find_device(devs, a.spec_key()).unwrap();
        match crate::pci_device::spec_secondary_bus(dm.desc) {
            None => Err(RenderError::MissingSecondaryBus),
            Some(dpb) => {
                let dps = spec_bus_devices(devs, a.domain, dpb);
                match spec_unique_id(devs, dm) {
                    None => Err(RenderError::MissingSecondaryBus),
                    Some(uid) => {
                        let (ix, st1) = spec_register_cluster(st, uid);
                        let t = "\n\tsubgraph cluster".spec_bytes() + crate::text::dec_seq(
                            ix as nat,
                        ) + " {\n\t\tlabel=\"PCIe switch\";\n\t\t\"".spec_bytes() + a.spec_text()
                            + "\";\n".spec_bytes() + spec_node_lines(dps, 0) + "\t}\n".spec_bytes()
                            + "\n\t# domain ".spec_bytes() + crate::text::hex_seq(domain as nat, 4)
                            + " bus ".spec_bytes() + crate::text::hex_seq(dpb as nat, 2)
                            + " is a switch internal bus\n".spec_bytes() + spec_edge_lines(
                            a,
                            dps,
                            0,
                        );
                        match spec_downstream_recurse(devs, slots, st1, dps, 0, fuel) {
                            Err(e) => Err(e),
                            Ok(p2) => match spec_upstream_loop(
                                devs,
                                slots,
                                p2.1,
                                ups,
                                k + 1,
                                domain,
                                fuel,
                            ) {
                                Err(e) => Err(e),
                                Ok(p3) => Ok((t + p2.0 + p3.0, p3.1)),
                            },
                        }
                    },
                }
            },
        }
    }
}

/// The recursive walk below a switch: each downstream port from `k` on
/// becomes the parent of its own downstream bus. A port without a stated
/// bus range is malformed; with no depth left the cascade is refused.
#[verifier::opaque]
pub open spec fn spec_downstream_recurse(
    devs: Seq<DeviceModel>,
    slots: Seq<(PciAddr, Seq<u8>)>,
    st: Seq<Seq<u8>>,
    dps: Seq<PciAddr>,
    k: int,
    fuel: nat,
) -> Result<(Seq<u8>, Seq<Seq<u8>>), RenderError>
    decreases fuel, 1nat, dps.len() - k + 1,
{
    if k < 0 || k >= dps.len() {
        Ok((Seq::<u8>::empty(), st))
    } else {
        let a = dps[k];
        let dm = spec_find_device(devs, a.spec_key()).unwrap();
        match crate::pci_device::spec_secondary_bus(dm.desc) {
            None => Err(RenderError::MissingSecondaryBus),
            Some(sec) => {
                if fuel == 0 {
                    Err(RenderError::TooDeep)
                } else {
                    match spec_write_bus(
                        devs,
                        slots,
                        st,
                        dm,
                        a.domain,
                        sec,
                        (fuel - 1) as nat,
                    ) {
                        Err(e) => Err(e),
                        Ok(p) => match spec_downstream_recurse(
                            devs,
                            slots,
                            p.1,
                            dps,
                            k + 1,
                            fuel,
                        ) {
                            Err(e) => Err(e),
                            Ok(p2) => Ok((p.0 + p2.0, p2.1)),
                        },
                    }
                }
            },
        }
    }
}

/// What a legacy bus emits for each bridge from `k` on: a one-member bridge
/// cluster, then the bridge's secondary bus comment and its devices, each
/// joined by an unlabeled edge and named.
#[verifier::opaque]
pub open spec fn spec_bridge_loop(
    devs: Seq<DeviceModel>,
    st: Seq<Seq<u8>>,
    brs: Seq<PciAddr>,
    k: int,
    domain: u16,
) -> Result<(Seq<u8>, Seq<Seq<u8>>), RenderError>
    decreases brs.len() - k + 1,
{
    if k < 0 || k >= brs.len() {
        Ok((Seq::<u8>::empty(), st))
    } else {
        let a = brs[k];
        let dm = spec_find_device(devs, a.spec_key()).unwrap();
        match spec_unique_id(devs, dm) {
            None => Err(RenderError::MissingSecondaryBus),
            Some(uid) => {
                let (ix, st1) = spec_register_cluster(st, uid);
                let t1 = "\n\tsubgraph cluster".spec_bytes() + crate::text::dec_seq(ix as nat)
                    + " {\n\t\tlabel=\"PCI bridge\";\n\t\t\"".spec_bytes() + a.spec_text()
                    + "\";\n\t}\n".spec_bytes();
                match crate::pci_device::spec_secondary_bus(dm.desc) {
                    None => Err(RenderError::MissingSecondaryBus),
                    Some(sec) => {
                        let sdevs = spec_bus_devices(devs, a.domain, sec);
                        let t2 = "\n\t# domain ".spec_bytes() + crate::text::hex_seq(
                            domain as nat,
                            4,
                        ) + " bus ".spec_bytes() + crate::text::hex_seq(sec as nat, 2)
                            + "\n".spec_bytes() + spec_bridge_children(devs, a, sdevs, 0);
                        match spec_bridge_loop(devs, st1, brs, k + 1, domain) {
                            Err(e) => Err(e),
                            Ok(p) => Ok((t1 + t2 + p.0, p.1)),
                        }
                    },
                }
            },
        }
    }
}

/// What a leaf bus emits: the first endpoint's named node, and — when
/// several functions share the bus — an unlabeled cluster of all of them
/// and the chain of unlabeled edges between consecutive functions.
#[verifier::opaque]
pub open spec fn spec_endpoint_part(
    devs: Seq<DeviceModel>,
    st: Seq<Seq<u8>>,
    eps: Seq<PciAddr>,
) -> Result<(Seq<u8>, Seq<Seq<u8>>), RenderError> {
    let first = eps[0];
    let fdm = spec_find_device(devs, first.spec_key()).unwrap();
    let t1 = "\n\t\"".spec_bytes() + first.spec_text() + "\" [ label=\"".spec_bytes()
        + spec_device_name(fdm) + "\\n".spec_bytes() + first.spec_text() + "\" ];\n".spec_bytes();
    if eps.len() > 1 {
        match spec_unique_id(devs, fdm) {
            None => Err(RenderError::MissingSecondaryBus),
            Some(uid) => {
                let (ix, st1) = spec_register_cluster(st, uid);
                let t2 = "\n\tsubgraph cluster".spec_bytes() + crate::text::dec_seq(ix as nat)
                    + " {\n".spec_bytes() + spec_node_lines(eps, 0) + "\t}\n".spec_bytes();
                Ok((t1 + t2 + spec_endpoint_chain(devs, eps, 0), st1))
            },
        }
    } else {
        Ok((t1, st))
    }
}

/// Everything one bus emits, and the cluster table afterwards: the bus head,
/// then — by what the bus holds — the switch fabric walk, the legacy
/// segment, or the endpoint leaf.
#[verifier::opaque]
pub open spec fn spec_write_bus(
    devs: Seq<DeviceModel>,
    slots: Seq<(PciAddr, Seq<u8>)>,
    st: Seq<Seq<u8>>,
    parent: DeviceModel,
    domain: u16,
    bus: u8,
    fuel: nat,
) -> Result<(Seq<u8>, Seq<Seq<u8>>), RenderError>
    decreases fuel, 3nat, 0nat,
{
    match spec_bus_head(devs, slots, parent, domain, bus) {
        Err(e) => Err(e),
        Ok(head) => {
            let bdevs = spec_bus_devices(devs, domain, bus);
            let ups = spec_role_filter(devs, bdevs, Role::UpstreamPort);
            let brs = spec_role_filter(devs, bdevs, Role::PciBridge);
            let eps = spec_role_filter(devs, bdevs, Role::Endpoint);
            if ups.len() > 0 {
                match spec_upstream_loop(devs, slots, st, ups, 0, domain, fuel) {
                    Err(e) => Err(e),
                    Ok(p) => Ok((head + p.0, p.1)),
                }
            } else if brs.len() > 0 {
                match spec_bridge_loop(devs, st, brs, 0, domain) {
                    Err(e) => Err(e),
                    Ok(p) => Ok((head + p.0, p.1)),
                }
            } else if eps.len() > 0 {
                match spec_endpoint_part(devs, st, eps) {
                    Err(e) => Err(e),
                    Ok(p) => Ok((head + p.0, p.1)),
                }
            } else {
                Ok((head, st))
            }
        },
    }
}

/// What the whole graph body emits for each device from `k` on: every root
/// port with a stated downstream bus contributes its banner, its rectangle
/// node, its group cluster, and the walk of its downstream bus. A root port
/// without a stated bus range is skipped: on some platforms a host bridge
/// claims the root-port capability with the wrong configuration header
/// type.
#[verifier::opaque]
pub open spec fn spec_graph_loop(
    devs: Seq<DeviceModel>,
    slots: Seq<(PciAddr, Seq<u8>)>,
    st: Seq<Seq<u8>>,
    k: int,
    fuel: nat,
) -> Result<(Seq<u8>, Seq<Seq<u8>>), RenderError>
    decreases devs.len() - k + 1,
{
    if k < 0 || k >= devs.len() {
        Ok((Seq::<u8>::empty(), st))
    } else {
        let dm = devs[k];
        if crate::text::contains_seq(dm.desc, crate::pci_device::root_port_marker()) {
            match crate::pci_device::spec_secondary_bus(dm.desc) {
                None => spec_graph_loop(devs, slots, st, k + 1, fuel),
                Some(sb) => {
                    let group = crate::pci_device::spec_group_name_of(dm.addr.bus, dm.desc);
                    let (ix, st1) = spec_register_cluster(st, group);
                    let t =
                        "\n\t######################################################################\n\t# root port ".spec_bytes()
                        + dm.addr.spec_text() + "\n\n\t\"".spec_bytes() + dm.addr.spec_text()
                        + "\" [ label=\"Root port\\n".spec_bytes() + dm.addr.spec_text()
                        + "\" shape=rectangle ];\n\n\tsubgraph cluster".spec_bytes()
                        + crate::text::dec_seq(ix as nat) + " {\n\t\tlabel=\"".spec_bytes() + group
                        + "\";\n\t\t\"".spec_bytes() + dm.addr.spec_text()
                        + "\";\n\t}\n".spec_bytes();
                    match spec_write_bus(devs, slots, st1, dm, dm.addr.domain, sb, fuel) {
                        Err(e) => Err(e),
                        Ok(p) => match spec_graph_loop(devs, slots, p.1, k + 1, fuel) {
                            Err(e) => Err(e),
                            Ok(p2) => Ok((t + p.0 + p2.0, p2.1)),
                        },
                    }
                },
            }
        } else {
            spec_graph_loop(devs, slots, st, k + 1, fuel)
        }
    }
}

/// The depth budget of the walk: deeper than any chain of distinct bus
/// numbers can be.
pub open spec fn spec_render_depth() -> nat {
    256
}

/// The whole graph description: the header lines, every root port's
/// subtree, and the closing brace.
pub open spec fn spec_write_graph(
    devs: Seq<DeviceModel>,
    slots: Seq<(PciAddr, Seq<u8>)>,
) -> Result<Seq<u8>, RenderError> {
    match spec_graph_loop(devs, slots, Seq::<Seq<u8>>::empty(), 0, spec_render_depth()) {
        Err(e) => Err(e),
        Ok(p) => Ok("graph pci {\n\trankdir=LR;\n".spec_bytes() + p.0 + "}\n".spec_bytes()),
    }
}

/// A role filter keeps only addresses of the list, so what was found stays
/// found.
pub proof fn lemma_filter_found(
    devs: Seq<DeviceModel>,
    addrs: Seq<PciAddr>,
    role: Role,
)
    requires
        crate::machine::all_found(devs, addrs),
    ensures
        crate::machine::all_found(devs, spec_role_filter(devs, addrs, role)),
    decreases addrs.len(),
{
    if addrs.len() > 0 {
        assert(crate::machine::all_found(devs, addrs.drop_last())) by {
            assert(forall|k: int|
                0 <= k < addrs.len() - 1 ==> addrs.drop_last()[k] == addrs[k]);
        }
        lemma_filter_found(devs, addrs.drop_last(), role);
        let f = spec_role_filter(devs, addrs, role);
        let fpre = spec_role_filter(devs, addrs.drop_last(), role);
        assert forall|k: int| 0 <= k < f.len() implies spec_find_device(
            devs,
            (#[trigger] f[k]).spec_key(),
        ) is Some by {
            if k < fpre.len() {
                assert(f[k] == fpre[k]);
            } else {
                assert(f[k] == addrs.last());
            }
        }
    }
}

impl Machine {
    /// The slot name filed under an address, if any.
    pub fn slot_lookup(&self, a: PciAddr) -> (r: Option<Vec<u8>>)
        ensures
            match r {
                Some(v) => spec_slot_lookup(self.slots_model(), a.spec_key()) == Some(v@),
                None => spec_slot_lookup(self.slots_model(), a.spec_key()) is None,
            },
    {
        let key = a.key();
        let ghost s = self.slots_model();
        let mut i: usize = 0;
        proof {
            assert(s.subrange(0, s.len() as int) =~= s);
        }
        loop
            invariant
                s == self.slots_model(),
                key == a.spec_key(),
                i <= s.len(),
                spec_slot_lookup(s, key as int) == spec_slot_lookup(
                    s.subrange(i as int, s.len() as int),
                    key as int,
                ),
            decreases s.len() - i,
        {
            if i >= self.dmi_slots.len() {
                proof {
                    assert(s.subrange(s.len() as int, s.len() as int) =~= Seq::<
                        (PciAddr, Seq<u8>),
                    >::empty());
                }
                return None;
            }
            let ghost suf = s.subrange(i as int, s.len() as int);
            proof {
                assert(suf[0] == s[i as int]);
                assert(suf.drop_first() =~= s.subrange(i + 1, s.len() as int));
            }
            if self.dmi_slots[i].0.key() == key {
                return Some(crate::text::to_vec_copy(self.dmi_slots[i].1.as_slice()));
            }
            i += 1;
        }
    }

    /// The addresses of the list whose record carries the role's phrase.
    fn filter_role(&self, addrs: &Vec<PciAddr>, role: Role) -> (r: Vec<PciAddr>)
        requires
            crate::machine::all_found(self.devices_model(), addrs@),
        ensures
            r@ == spec_role_filter(self.devices_model(), addrs@, role),
    {
        let ghost devs = self.devices_model();
        let mut out: Vec<PciAddr> = Vec::new();
        let mut i: usize = 0;
        proof {
            assert(addrs@.subrange(0, 0) =~= Seq::<PciAddr>::empty());
            assert(out@ =~= spec_role_filter(devs, addrs@.subrange(0, 0), role));
        }
        while i < addrs.len()
            invariant
                devs == self.devices_model(),
                crate::machine::all_found(devs, addrs@),
                i <= addrs@.len(),
                out@ == spec_role_filter(devs, addrs@.subrange(0, i as int), role),
            decreases addrs@.len() - i,
        {
            let a = addrs[i];
            let dev = self.lookup_device(a);
            let keep = match role {
                Role::UpstreamPort => dev.is_upstream_port(),
                Role::PciBridge => dev.is_pci_bridge(),
                Role::Endpoint => dev.is_endpoint(),
            };
            if keep {
                out.push(a);
            }
            proof {
                let pre = addrs@.subrange(0, i as int);
                assert(addrs@.subrange(0, i + 1).drop_last() =~= pre);
                assert(addrs@.subrange(0, i + 1).last() == addrs@[i as int]);
                assert(keep == spec_role_matches(
                    role,
                    spec_find_device(devs, addrs@[i as int].spec_key()).unwrap().desc,
                ));
                if keep {
                    assert(out@ =~= spec_role_filter(devs, pre, role) + seq![addrs@[i as int]]);
                } else {
                    assert(out@ =~= spec_role_filter(devs, pre, role) + Seq::<PciAddr>::empty());
                }
            }
            i += 1;
        }
        proof {
            assert(addrs@.subrange(0, addrs@.len() as int) =~= addrs@);
        }
        out
    }
}

/// Appends a device's display name.
fn emit_device_name(out: &mut Vec<u8>, dev: &PciDevice)
    ensures
        final(out)@ == old(out)@ + spec_device_name(dev@),
{
    match dev.short_name() {
        Some(s) => {
            crate::text::append_bytes(out, s.as_bytes());
        },
        None => {
            proof {
                crate::text::lemma_pow16_vals();
            }
            crate::text::append_lit(out, "unknown ");
            crate::text::emit_hex(out, dev.vendor_id() as u64, 4);
            crate::text::append_lit(out, ":");
            crate::text::emit_hex(out, dev.device_id() as u64, 4);
            proof {
                assert(final(out)@ =~= old(out)@ + spec_device_name(dev@));
            }
        },
    }
}

/// Appends one cluster member line per address.
fn emit_node_lines(out: &mut Vec<u8>, addrs: &Vec<PciAddr>)
    ensures
        final(out)@ == old(out)@ + spec_node_lines(addrs@, 0),
{
    let mut i: usize = 0;
    proof {
        assert(out@ =~= old(out)@ + Seq::<u8>::empty());
    }
    while i < addrs.len()
        invariant
            i <= addrs@.len(),
            spec_node_lines(addrs@, 0) == out@.subrange(
                old(out)@.len() as int,
                out@.len() as int,
            ) + spec_node_lines(addrs@, i as int),
            out@.len() >= old(out)@.len(),
            out@.subrange(0, old(out)@.len() as int) == old(out)@,
        decreases addrs@.len() - i,
    {
        let ghost mid = out@;
        crate::text::append_lit(out, "\t\t\"");
        addrs[i].emit(out);
        crate::text::append_lit(out, "\";\n");
        proof {
            let piece = "\t\t\"".spec_bytes() + addrs@[i as int].spec_text()
                + "\";\n".spec_bytes();
            assert(out@ =~= mid + piece);
            assert(out@.subrange(old(out)@.len() as int, out@.len() as int) =~= mid.subrange(
                old(out)@.len() as int,
                mid.len() as int,
            ) + piece);
            assert(out@.subrange(0, old(out)@.len() as int) =~= old(out)@);
        }
        i += 1;
    }
    proof {
        assert(final(out)@ =~= old(out)@ + final(out)@.subrange(
            old(out)@.len() as int,
            final(out)@.len() as int,
        ));
    }
}

/// Appends one unlabeled edge from `a` per address.
fn emit_edge_lines(out: &mut Vec<u8>, a: PciAddr, addrs: &Vec<PciAddr>)
    ensures
        final(out)@ == old(out)@ + spec_edge_lines(a, addrs@, 0),
{
    let mut i: usize = 0;
    while i < addrs.len()
        invariant
            i <= addrs@.len(),
            spec_edge_lines(a, addrs@, 0) == out@.subrange(
                old(out)@.len() as int,
                out@.len() as int,
            ) + spec_edge_lines(a, addrs@, i as int),
            out@.len() >= old(out)@.len(),
            out@.subrange(0, old(out)@.len() as int) == old(out)@,
        decreases addrs@.len() - i,
    {
        let ghost mid = out@;
        crate::text::append_lit(out, "\n\t\"");
        a.emit(out);
        crate::text::append_lit(out, "\" -- \"");
        addrs[i].emit(out);
        crate::text::append_lit(out, "\";\n");
        proof {
            let piece = "\n\t\"".spec_bytes() + a.spec_text() + "\" -- \"".spec_bytes()
                + addrs@[i as int].spec_text() + "\";\n".spec_bytes();
            assert(out@ =~= mid + piece);
            assert(out@.subrange(old(out)@.len() as int, out@.len() as int) =~= mid.subrange(
                old(out)@.len() as int,
                mid.len() as int,
            ) + piece);
            assert(out@.subrange(0, old(out)@.len() as int) =~= old(out)@);
        }
        i += 1;
    }
    proof {
        assert(final(out)@ =~= old(out)@ + final(out)@.subrange(
            old(out)@.len() as int,
            final(out)@.len() as int,
        ));
    }
}

impl Machine {
    /// Appends the legacy segment behind a bridge: edge and named node per
    /// device.
    fn emit_bridge_children(&self, out: &mut Vec<u8>, a: PciAddr, addrs: &Vec<PciAddr>)
        requires
            crate::machine::all_found(self.devices_model(), addrs@),
        ensures
            final(out)@ == old(out)@ + spec_bridge_children(
                self.devices_model(),
                a,
                addrs@,
                0,
            ),
    {
        let ghost devs = self.devices_model();
        let mut i: usize = 0;
        while i < addrs.len()
            invariant
                devs == self.devices_model(),
                crate::machine::all_found(devs, addrs@),
                i <= addrs@.len(),
                spec_bridge_children(devs, a, addrs@, 0) == out@.subrange(
                    old(out)@.len() as int,
                    out@.len() as int,
                ) + spec_bridge_children(devs, a, addrs@, i as int),
                out@.len() >= old(out)@.len(),
                out@.subrange(0, old(out)@.len() as int) == old(out)@,
            decreases addrs@.len() - i,
        {
            let ghost mid = out@;
            let sd = addrs[i];
            let dev = self.lookup_device(sd);
            crate::text::append_lit(out, "\n\t\"");
            a.emit(out);
            crate::text::append_lit(out, "\" -- \"");
            sd.emit(out);
            crate::text::append_lit(out, "\";\n\n\t\"");
            sd.emit(out);
            crate::text::append_lit(out, "\" [ label=\"");
            emit_device_name(out, dev);
            crate::text::append_lit(out, "\\n");
            sd.emit(out);
            crate::text::append_lit(out, "\" ];\n");
            proof {
                let dm = spec_find_device(devs, addrs@[i as int].spec_key()).unwrap();
                let piece = "\n\t\"".spec_bytes() + a.spec_text() + "\" -- \"".spec_bytes()
                    + addrs@[i as int].spec_text() + "\";\n\n\t\"".spec_bytes() + addrs@[
                    i as int].spec_text() + "\" [ label=\"".spec_bytes() + spec_device_name(dm)
                    + "\\n".spec_bytes() + addrs@[i as int].spec_text() + "\" ];\n".spec_bytes();
                assert(out@ =~= mid + piece);
                assert(out@.subrange(old(out)@.len() as int, out@.len() as int) =~= mid.subrange(
                    old(out)@.len() as int,
                    mid.len() as int,
                ) + piece);
                assert(out@.subrange(0, old(out)@.len() as int) =~= old(out)@);
            }
            i += 1;
        }
        proof {
            assert(final(out)@ =~= old(out)@ + final(out)@.subrange(
                old(out)@.len() as int,
                final(out)@.len() as int,
            ));
        }
    }

    /// Appends one link of a multi-function chain: the unlabeled edge from
    /// `a` to `b` and `b`'s named node.
    fn emit_endpoint_link(&self, out: &mut Vec<u8>, a: PciAddr, b: PciAddr)
        requires
            spec_find_device(self.devices_model(), b.spec_key()) is Some,
        ensures
            final(out)@ == old(out)@ + ("\n\t\"".spec_bytes() + a.spec_text()
                + "\" -- \"".spec_bytes() + b.spec_text() + "\";\n\t\"".spec_bytes()
                + b.spec_text() + "\" [ label=\"".spec_bytes() + spec_device_name(
                spec_find_device(self.devices_model(), b.spec_key()).unwrap(),
            ) + "\\n".spec_bytes() + b.spec_text() + "\" ];\n".spec_bytes()),
    {
        let dev = self.lookup_device(b);
        crate::text::append_lit(out, "\n\t\"");
        a.emit(out);
        crate::text::append_lit(out, "\" -- \"");
        b.emit(out);
        crate::text::append_lit(out, "\";\n\t\"");
        b.emit(out);
        crate::text::append_lit(out, "\" [ label=\"");
        emit_device_name(out, dev);
        crate::text::append_lit(out, "\\n");
        b.emit(out);
        crate::text::append_lit(out, "\" ];\n");
        proof {
            assert(final(out)@ =~= old(out)@ + ("\n\t\"".spec_bytes() + a.spec_text()
                + "\" -- \"".spec_bytes() + b.spec_text() + "\";\n\t\"".spec_bytes()
                + b.spec_text() + "\" [ label=\"".spec_bytes() + spec_device_name(
                spec_find_device(self.devices_model(), b.spec_key()).unwrap(),
            ) + "\\n".spec_bytes() + b.spec_text() + "\" ];\n".spec_bytes()));
        }
    }

    /// Appends the chain of a multi-function device: unlabeled edges between
    /// consecutive endpoints, naming each newly drawn node.
    #[verifier::rlimit(100)]
    fn emit_endpoint_chain(&self, out: &mut Vec<u8>, eps: &Vec<PciAddr>)
        requires
            crate::machine::all_found(self.devices_model(), eps@),
        ensures
            final(out)@ == old(out)@ + spec_endpoint_chain(self.devices_model(), eps@, 0),
    {
        let ghost devs = self.devices_model();
        let mut i: usize = 0;
        if eps.len() == 0 {
            proof {
                assert(out@ =~= old(out)@ + spec_endpoint_chain(devs, eps@, 0));
            }
            return;
        }
        while i < eps.len() - 1
            invariant
                devs == self.devices_model(),
                crate::machine::all_found(devs, eps@),
                i < eps@.len(),
                spec_endpoint_chain(devs, eps@, 0) == out@.subrange(
                    old(out)@.len() as int,
                    out@.len() as int,
                ) + spec_endpoint_chain(devs, eps@, i as int),
                out@.len() >= old(out)@.len(),
                out@.subrange(0, old(out)@.len() as int) == old(out)@,
            decreases eps@.len() - i,
        {
            let ghost mid = out@;
            let a = eps[i];
            let b = eps[i + 1];
            self.emit_endpoint_link(out, a, b);
            proof {
                let dm = spec_find_device(devs, eps@[i + 1].spec_key()).unwrap();
                let piece = "\n\t\"".spec_bytes() + eps@[i as int].spec_text()
                    + "\" -- \"".spec_bytes() + eps@[i + 1].spec_text() + "\";\n\t\"".spec_bytes()
                    + eps@[i + 1].spec_text() + "\" [ label=\"".spec_bytes() + spec_device_name(
                    dm,
                ) + "\\n".spec_bytes() + eps@[i + 1].spec_text() + "\" ];\n".spec_bytes();
                assert(out@ =~= mid + piece);
                crate::text::lemma_suffix_extend(old(out)@, mid, piece);
                assert(spec_endpoint_chain(devs, eps@, i as int) == piece + spec_endpoint_chain(
                    devs,
                    eps@,
                    i + 1,
                ));
                assert(mid.subrange(old(out)@.len() as int, mid.len() as int) + (piece
                    + spec_endpoint_chain(devs, eps@, i + 1)) =~= (mid.subrange(
                    old(out)@.len() as int,
                    mid.len() as int,
                ) + piece) + spec_endpoint_chain(devs, eps@, i + 1));
            }
            i += 1;
        }
        proof {
            assert(final(out)@ =~= old(out)@ + final(out)@.subrange(
                old(out)@.len() as int,
                final(out)@.len() as int,
            ));
        }
    }

    /// Appends the slot node and its capability-labeled edge.
    fn emit_slot_part(
        &self,
        out: &mut Vec<u8>,
        parent_dev: &PciDevice,
        inter: &Vec<u8>,
        cap: LnkCap,
        name: &Vec<u8>,
    )
        ensures
            final(out)@ == old(out)@ + ("\t\"".spec_bytes() + parent_dev@.addr.spec_text()
                + "\" -- \"".spec_bytes() + inter@ + "\" [ label=\"".spec_bytes()
                + cap.spec_label() + "\" ];\n\t\"".spec_bytes() + inter@
                + "\" [ label=\"".spec_bytes() + name@
                + "\" shape=rectangle ];\n".spec_bytes()),
    {
        crate::text::append_lit(out, "\t\"");
        parent_dev.addr.emit(out);
        crate::text::append_lit(out, "\" -- \"");
        crate::text::append_bytes(out, inter.as_slice());
        crate::text::append_lit(out, "\" [ label=\"");
        cap.emit_label(out);
        crate::text::append_lit(out, "\" ];\n\t\"");
        crate::text::append_bytes(out, inter.as_slice());
        crate::text::append_lit(out, "\" [ label=\"");
        crate::text::append_bytes(out, name.as_slice());
        crate::text::append_lit(out, "\" shape=rectangle ];\n");
        proof {
            assert(final(out)@ =~= old(out)@ + ("\t\"".spec_bytes()
                + parent_dev@.addr.spec_text() + "\" -- \"".spec_bytes() + inter@
                + "\" [ label=\"".spec_bytes() + cap.spec_label() + "\" ];\n\t\"".spec_bytes()
                + inter@ + "\" [ label=\"".spec_bytes() + name@
                + "\" shape=rectangle ];\n".spec_bytes()));
        }
    }

    /// Appends the edge from the intermediate vertex to the bus's first
    /// device, labeled with the given negotiated link when one is passed.
    #[verifier::rlimit(100)]
    fn emit_first_edge(&self, out: &mut Vec<u8>, inter: &Vec<u8>, first: PciAddr, sta: Option<
        LnkSta,
    >)
        ensures
            final(out)@ == old(out)@ + ("\t\"".spec_bytes() + inter@ + "\" -- \"".spec_bytes()
                + first.spec_text() + "\"".spec_bytes() + (match sta {
                Some(l) => " [ label=\"".spec_bytes() + l.spec_label() + "\" ]".spec_bytes(),
                None => Seq::<u8>::empty(),
            }) + ";\n".spec_bytes()),
    {
        crate::text::append_lit(out, "\t\"");
        crate::text::append_bytes(out, inter.as_slice());
        crate::text::append_lit(out, "\" -- \"");
        first.emit(out);
        crate::text::append_lit(out, "\"");
        match sta {
            Some(l) => {
                crate::text::append_lit(out, " [ label=\"");
                l.emit_label(out);
                crate::text::append_lit(out, "\" ]");
            },
            None => {},
        }
        crate::text::append_lit(out, ";\n");
        proof {
            assert(final(out)@ =~= old(out)@ + ("\t\"".spec_bytes() + inter@
                + "\" -- \"".spec_bytes() + first.spec_text() + "\"".spec_bytes() + (match sta {
                Some(l) => " [ label=\"".spec_bytes() + l.spec_label() + "\" ]".spec_bytes(),
                None => Seq::<u8>::empty(),
            }) + ";\n".spec_bytes()));
        }
    }

    /// Appends the placeholder node of a wired but empty bus and its edge,
    /// labeled with the parent's capability unless a slot node already
    /// carries it.
    #[verifier::rlimit(100)]
    fn emit_empty_tail(
        &self,
        out: &mut Vec<u8>,
        inter: &Vec<u8>,
        domain: u16,
        bus: u8,
        cap: LnkCap,
        has_slot: bool,
    )
        ensures
            final(out)@ == old(out)@ + ({
                let busnode = "bus ".spec_bytes() + crate::text::hex_seq(domain as nat, 4)
                    + ":".spec_bytes() + crate::text::hex_seq(bus as nat, 2);
                let lb = if !has_slot {
                    " [ label=\"".spec_bytes() + cap.spec_label() + "\" ]".spec_bytes()
                } else {
                    Seq::<u8>::empty()
                };
                "\t\"".spec_bytes() + inter@ + "\" -- \"".spec_bytes() + busnode
                    + "\"".spec_bytes() + lb + ";\n\n\t\"".spec_bytes() + busnode
                    + "\" [ shape=rectangle ];\n".spec_bytes()
            }),
    {
        proof {
            crate::text::lemma_pow16_vals();
        }
        let ghost busnode = "bus ".spec_bytes() + crate::text::hex_seq(domain as nat, 4)
            + ":".spec_bytes() + crate::text::hex_seq(bus as nat, 2);
        let ghost lb: Seq<u8> = if !has_slot {
            " [ label=\"".spec_bytes() + cap.spec_label() + "\" ]".spec_bytes()
        } else {
            Seq::<u8>::empty()
        };
        crate::text::append_lit(out, "\t\"");
        crate::text::append_bytes(out, inter.as_slice());
        crate::text::append_lit(out, "\" -- \"");
        crate::text::append_lit(out, "bus ");
        crate::text::emit_hex(out, domain as u64, 4);
        crate::text::append_lit(out, ":");
        crate::text::emit_hex(out, bus as u64, 2);
        crate::text::append_lit(out, "\"");
        if !has_slot {
            crate::text::append_lit(out, " [ label=\"");
            cap.emit_label(out);
            crate::text::append_lit(out, "\" ]");
        }
        proof {
            assert(out@ =~= old(out)@ + ("\t\"".spec_bytes() + inter@
                + "\" -- \"".spec_bytes() + busnode + "\"".spec_bytes() + lb));
        }
        let ghost mid = out@;
        crate::text::append_lit(out, ";\n\n\t\"");
        crate::text::append_lit(out, "bus ");
        crate::text::emit_hex(out, domain as u64, 4);
        crate::text::append_lit(out, ":");
        crate::text::emit_hex(out, bus as u64, 2);
        crate::text::append_lit(out, "\" [ shape=rectangle ];\n");
        proof {
            assert(out@ =~= mid + (";\n\n\t\"".spec_bytes() + busnode
                + "\" [ shape=rectangle ];\n".spec_bytes()));
            assert(final(out)@ =~= old(out)@ + ("\t\"".spec_bytes() + inter@
                + "\" -- \"".spec_bytes() + busnode + "\"".spec_bytes() + lb
                + ";\n\n\t\"".spec_bytes() + busnode
                + "\" [ shape=rectangle ];\n".spec_bytes()));
        }
    }

    /// Appends everything a bus emits before its devices are classified: the
    /// bus comment, the slot node when a name resolves, and the edge into
    /// the bus.
    #[verifier::rlimit(100)]
    fn write_bus_head(
        &self,
        out: &mut Vec<u8>,
        parent_dev: &PciDevice,
        domain: u16,
        bus: u8,
    ) -> (r: Result<(), RenderError>)
        ensures
            match r {
                Ok(_) => {
                    &&& spec_bus_head(
                        self.devices_model(),
                        self.slots_model(),
                        parent_dev@,
                        domain,
                        bus,
                    ) is Ok
                    &&& final(out)@ == old(out)@ + spec_bus_head(
                        self.devices_model(),
                        self.slots_model(),
                        parent_dev@,
                        domain,
                        bus,
                    ).unwrap()
                },
                Err(e) => spec_bus_head(
                    self.devices_model(),
                    self.slots_model(),
                    parent_dev@,
                    domain,
                    bus,
                ) == Err::<Seq<u8>, RenderError>(e),
            },
    {
        let ghost devs = self.devices_model();
        let ghost slots = self.slots_model();
        let ghost t0 = "\n\t# domain ".spec_bytes() + crate::text::hex_seq(domain as nat, 4)
            + " bus ".spec_bytes() + crate::text::hex_seq(bus as nat, 2) + "\n\n".spec_bytes();
        proof {
            crate::text::lemma_pow16_vals();
        }
        crate::text::append_lit(out, "\n\t# domain ");
        crate::text::emit_hex(out, domain as u64, 4);
        crate::text::append_lit(out, " bus ");
        crate::text::emit_hex(out, bus as u64, 2);
        crate::text::append_lit(out, "\n\n");
        proof {
            assert(out@ =~= old(out)@ + t0);
        }
        let direct = self.slot_lookup(PciAddr::new(domain, bus, 0, 0));
        let suffixed = direct.is_some();
        let slot = match direct {
            Some(n) => Some(n),
            None => self.slot_lookup(parent_dev.addr()),
        };
        let has_slot = slot.is_some();
        proof {
            assert(suffixed == spec_slot_direct(slots, domain, bus));
        }
        proof {
            assert((match slot {
                Some(n) => spec_slot_name(slots, parent_dev@, domain, bus) == Some(n@),
                None => spec_slot_name(slots, parent_dev@, domain, bus) is None,
            }));
        }
        let mut inter: Vec<u8> = parent_dev.addr.format();
        if suffixed {
            crate::text::append_lit(&mut inter, "_");
            crate::text::emit_hex(&mut inter, bus as u64, 2);
        }
        proof {
            assert(inter@ =~= spec_intermediate(parent_dev@, bus, suffixed));
        }
        let ghost mut sp: Seq<u8> = Seq::<u8>::empty();
        match &slot {
            Some(name) => {
                match parent_dev.lnk_cap() {
                    None => {
                        return Err(RenderError::MissingLinkCapability);
                    },
                    Some(cap) => {
                        self.emit_slot_part(out, parent_dev, &inter, cap, name);
                        proof {
                            sp = "\t\"".spec_bytes() + parent_dev@.addr.spec_text()
                                + "\" -- \"".spec_bytes() + inter@
                                + "\" [ label=\"".spec_bytes() + cap.spec_label()
                                + "\" ];\n\t\"".spec_bytes() + inter@
                                + "\" [ label=\"".spec_bytes() + name@
                                + "\" shape=rectangle ];\n".spec_bytes();
                        }
                    },
                }
            },
            None => {},
        }
        proof {
            assert(out@ =~= old(out)@ + t0 + sp);
        }
        let bdevs = self.bus_devices(domain, bus);
        if bdevs.len() > 0 {
            let first = bdevs[0];
            proof {
                crate::machine::lemma_bus_devices_found(devs, domain, bus);
            }
            let fdev = self.lookup_device(first);
            let pid = match self.pci_device_unique_id(parent_dev) {
                None => {
                    return Err(RenderError::MissingSecondaryBus);
                },
                Some(x) => x,
            };
            let fid = match self.pci_device_unique_id(fdev) {
                None => {
                    return Err(RenderError::MissingSecondaryBus);
                },
                Some(x) => x,
            };
            let differs = !crate::text::bytes_eq(pid.as_slice(), fid.as_slice());
            let sta = if differs {
                match fdev.lnk_sta() {
                    None => {
                        return Err(RenderError::MissingLinkStatus);
                    },
                    Some(sta) => Some(sta),
                }
            } else {
                None
            };
            self.emit_first_edge(out, &inter, first, sta);
            proof {
                let tail = "\t\"".spec_bytes() + inter@ + "\" -- \"".spec_bytes()
                    + first.spec_text() + "\"".spec_bytes() + (match sta {
                    Some(l) => " [ label=\"".spec_bytes() + l.spec_label() + "\" ]".spec_bytes(),
                    None => Seq::<u8>::empty(),
                }) + ";\n".spec_bytes();
                assert(spec_head_slot_part(slots, parent_dev@, domain, bus) == Ok::<
                    Seq<u8>,
                    RenderError,
                >(sp));
                assert(spec_head_tail(devs, slots, parent_dev@, domain, bus) == Ok::<
                    Seq<u8>,
                    RenderError,
                >(tail));
                assert(t0 == spec_head_comment(domain, bus));
                assert(final(out)@ =~= old(out)@ + (t0 + sp + tail));
            }
            Ok(())
        } else {
            match parent_dev.lnk_cap() {
                None => {
                    return Err(RenderError::MissingLinkCapability);
                },
                Some(cap) => {
                    self.emit_empty_tail(out, &inter, domain, bus, cap, has_slot);
                    proof {
                        let busnode = "bus ".spec_bytes() + crate::text::hex_seq(domain as nat, 4)
                            + ":".spec_bytes() + crate::text::hex_seq(bus as nat, 2);
                        let lb = if !has_slot {
                            " [ label=\"".spec_bytes() + cap.spec_label() + "\" ]".spec_bytes()
                        } else {
                            Seq::<u8>::empty()
                        };
                        let tail = "\t\"".spec_bytes() + inter@ + "\" -- \"".spec_bytes()
                            + busnode + "\"".spec_bytes() + lb + ";\n\n\t\"".spec_bytes()
                            + busnode + "\" [ shape=rectangle ];\n".spec_bytes();
                        assert(spec_head_slot_part(slots, parent_dev@, domain, bus) == Ok::<
                            Seq<u8>,
                            RenderError,
                        >(sp));
                        assert(spec_head_tail(devs, slots, parent_dev@, domain, bus) == Ok::<
                            Seq<u8>,
                            RenderError,
                        >(tail));
                        assert(t0 == spec_head_comment(domain, bus));
                        assert(final(out)@ =~= old(out)@ + (t0 + sp + tail));
                    }
                    Ok(())
                },
            }
        }
    }
}


impl Machine {
    /// Appends a switch cluster: its numbered header, the upstream port and
    /// every downstream port as members, the internal-bus comment, and the
    /// unlabeled internal edges.
    #[verifier::rlimit(100)]
    fn emit_switch_cluster(
        &self,
        out: &mut Vec<u8>,
        a: PciAddr,
        dps: &Vec<PciAddr>,
        domain: u16,
        dpb: u8,
        ix: usize,
    )
        ensures
            final(out)@ == old(out)@ + ("\n\tsubgraph cluster".spec_bytes()
                + crate::text::dec_seq(ix as nat)
                + " {\n\t\tlabel=\"PCIe switch\";\n\t\t\"".spec_bytes() + a.spec_text()
                + "\";\n".spec_bytes() + spec_node_lines(dps@, 0) + "\t}\n".spec_bytes()
                + "\n\t# domain ".spec_bytes() + crate::text::hex_seq(domain as nat, 4)
                + " bus ".spec_bytes() + crate::text::hex_seq(dpb as nat, 2)
                + " is a switch internal bus\n".spec_bytes() + spec_edge_lines(a, dps@, 0)),
    {
        proof {
            crate::text::lemma_pow16_vals();
        }
        crate::text::append_lit(out, "\n\tsubgraph cluster");
        crate::text::emit_dec(out, ix as u64);
        crate::text::append_lit(out, " {\n\t\tlabel=\"PCIe switch\";\n\t\t\"");
        a.emit(out);
        crate::text::append_lit(out, "\";\n");
        emit_node_lines(out, dps);
        crate::text::append_lit(out, "\t}\n");
        let ghost mid = out@;
        crate::text::append_lit(out, "\n\t# domain ");
        crate::text::emit_hex(out, domain as u64, 4);
        crate::text::append_lit(out, " bus ");
        crate::text::emit_hex(out, dpb as u64, 2);
        crate::text::append_lit(out, " is a switch internal bus\n");
        emit_edge_lines(out, a, dps);
        proof {
            assert(mid =~= old(out)@ + ("\n\tsubgraph cluster".spec_bytes()
                + crate::text::dec_seq(ix as nat)
                + " {\n\t\tlabel=\"PCIe switch\";\n\t\t\"".spec_bytes() + a.spec_text()
                + "\";\n".spec_bytes() + spec_node_lines(dps@, 0) + "\t}\n".spec_bytes()));
            assert(final(out)@ =~= mid + ("\n\t# domain ".spec_bytes() + crate::text::hex_seq(
                domain as nat,
                4,
            ) + " bus ".spec_bytes() + crate::text::hex_seq(dpb as nat, 2)
                + " is a switch internal bus\n".spec_bytes() + spec_edge_lines(a, dps@, 0)));
            assert(final(out)@ =~= old(out)@ + ("\n\tsubgraph cluster".spec_bytes()
                + crate::text::dec_seq(ix as nat)
                + " {\n\t\tlabel=\"PCIe switch\";\n\t\t\"".spec_bytes() + a.spec_text()
                + "\";\n".spec_bytes() + spec_node_lines(dps@, 0) + "\t}\n".spec_bytes()
                + "\n\t# domain ".spec_bytes() + crate::text::hex_seq(domain as nat, 4)
                + " bus ".spec_bytes() + crate::text::hex_seq(dpb as nat, 2)
                + " is a switch internal bus\n".spec_bytes() + spec_edge_lines(a, dps@, 0)));
        }
    }
}

impl Machine {
    /// Walks one downstream port's own bus, the port becoming the parent.
    #[verifier::rlimit(100)]
    fn render_downstream_step(
        &self,
        out: &mut Vec<u8>,
        state: &mut MachineWriteState,
        dps: &Vec<PciAddr>,
        k: usize,
        fuel: u32,
    ) -> (r: Result<(), RenderError>)
        requires
            crate::machine::all_found(self.devices_model(), dps@),
            k < dps@.len(),
        ensures
            ({
                let pre = spec_downstream_recurse(
                    self.devices_model(),
                    self.slots_model(),
                    old(state).model(),
                    dps@,
                    k as int,
                    fuel as nat,
                );
                match r {
                    Ok(_) => final(out)@.len() >= old(out)@.len() && final(out)@.subrange(
                        0,
                        old(out)@.len() as int,
                    ) == old(out)@ && pre == (match spec_downstream_recurse(
                        self.devices_model(),
                        self.slots_model(),
                        final(state).model(),
                        dps@,
                        k + 1,
                        fuel as nat,
                    ) {
                        Err(e) => Err::<(Seq<u8>, Seq<Seq<u8>>), RenderError>(e),
                        Ok(p) => Ok(
                            (
                                final(out)@.subrange(
                                    old(out)@.len() as int,
                                    final(out)@.len() as int,
                                ) + p.0,
                                p.1,
                            ),
                        ),
                    }),
                    Err(e) => pre == Err::<(Seq<u8>, Seq<Seq<u8>>), RenderError>(e),
                }
            }),
        decreases fuel, 0int,
    {
        let ghost devs = self.devices_model();
        let ghost slots = self.slots_model();
        let ghost stmid = state.model();
        let a = dps[k];
        let dev = self.lookup_device(a);
        let sec = match dev.secondary_bus() {
            None => {
                proof {
                    reveal_with_fuel(spec_downstream_recurse, 1);
                    reveal_with_fuel(spec_write_bus, 1);
                    assert(dps@[k as int] == a);
                    assert(spec_find_device(devs, a.spec_key()).unwrap() == dev@);
                    assert(crate::pci_device::spec_secondary_bus(dev@.desc) is None);
                }
                return Err(RenderError::MissingSecondaryBus);
            },
            Some(sec) => sec,
        };
        if fuel == 0 {
            proof {
                reveal_with_fuel(spec_downstream_recurse, 1);
                reveal_with_fuel(spec_write_bus, 1);
                assert(dps@[k as int] == a);
                assert(spec_find_device(devs, a.spec_key()).unwrap() == dev@);
                assert(crate::pci_device::spec_secondary_bus(dev@.desc) == Some(sec));
            }
            return Err(RenderError::TooDeep);
        }
        proof {
            reveal_with_fuel(spec_downstream_recurse, 1);
            reveal_with_fuel(spec_write_bus, 1);
            assert(dps@[k as int] == a);
            assert(spec_find_device(devs, a.spec_key()).unwrap() == dev@);
            assert(crate::pci_device::spec_secondary_bus(dev@.desc) == Some(sec));
        }
        let res = self.write_bus(out, state, dev, a.domain(), sec, fuel - 1);
        match res {
            Ok(_) => {},
            Err(e) => {
                proof {
                    reveal_with_fuel(spec_downstream_recurse, 1);
                    reveal_with_fuel(spec_write_bus, 1);
                    assert(dps@[k as int] == a);
                    assert(spec_find_device(devs, a.spec_key()).unwrap() == dev@);
                    assert(crate::pci_device::spec_secondary_bus(dev@.desc) == Some(sec));
                    assert(spec_downstream_recurse(devs, slots, stmid, dps@, k as int,
                    fuel as nat) == Err::<(Seq<u8>, Seq<Seq<u8>>), RenderError>(e));
                }
                return Err(e);
            },
        }
        proof {
            reveal_with_fuel(spec_downstream_recurse, 1);
            reveal_with_fuel(spec_write_bus, 1);
            assert(dps@[k as int] == a);
            assert(spec_find_device(devs, a.spec_key()).unwrap() == dev@);
            assert(crate::pci_device::spec_secondary_bus(dev@.desc) == Some(sec));
            let inner = spec_write_bus(
                devs,
                slots,
                stmid,
                dev@,
                a.domain,
                sec,
                (fuel - 1) as nat,
            );
            assert(out@ =~= old(out)@ + inner.unwrap().0);
            assert(out@.subrange(old(out)@.len() as int, out@.len() as int) =~= inner.unwrap().0);
            assert(out@.subrange(0, old(out)@.len() as int) =~= old(out)@);
        }
        Ok(())
    }
}

impl Machine {
    /// Walks each downstream port's own bus, the port becoming the parent.
    #[verifier::rlimit(100)]
    fn render_downstream(
        &self,
        out: &mut Vec<u8>,
        state: &mut MachineWriteState,
        dps: &Vec<PciAddr>,
        fuel: u32,
    ) -> (r: Result<(), RenderError>)
        requires
            crate::machine::all_found(self.devices_model(), dps@),
        ensures
            ({
                let res = spec_downstream_recurse(
                    self.devices_model(),
                    self.slots_model(),
                    old(state).model(),
                    dps@,
                    0,
                    fuel as nat,
                );
                match r {
                    Ok(_) => {
                        &&& res is Ok
                        &&& final(out)@ == old(out)@ + res.unwrap().0
                        &&& final(state).model() == res.unwrap().1
                    },
                    Err(e) => res == Err::<(Seq<u8>, Seq<Seq<u8>>), RenderError>(e),
                }
            }),
        decreases fuel, 1int,
    {
        let ghost devs = self.devices_model();
        let ghost slots = self.slots_model();
        let ghost st0 = state.model();
        let mut k: usize = 0;
        proof {
            let nxt0 = spec_downstream_recurse(devs, slots, st0, dps@, 0, fuel as nat);
            assert(out@.subrange(old(out)@.len() as int, out@.len() as int) =~= Seq::<
                u8,
            >::empty());
            if nxt0 is Ok {
                assert(Seq::<u8>::empty() + nxt0.unwrap().0 =~= nxt0.unwrap().0);
            }
            assert(out@.subrange(0, old(out)@.len() as int) =~= old(out)@);
        }
        while k < dps.len()
            invariant
                devs == self.devices_model(),
                slots == self.slots_model(),
                crate::machine::all_found(devs, dps@),
                st0 == old(state).model(),
                k <= dps@.len(),
                spec_downstream_recurse(devs, slots, st0, dps@, 0, fuel as nat) == (
                match spec_downstream_recurse(
                    devs,
                    slots,
                    state.model(),
                    dps@,
                    k as int,
                    fuel as nat,
                ) {
                    Err(e) => Err::<(Seq<u8>, Seq<Seq<u8>>), RenderError>(e),
                    Ok(p) => Ok(
                        (
                            out@.subrange(old(out)@.len() as int, out@.len() as int) + p.0,
                            p.1,
                        ),
                    ),
                }),
                out@.len() >= old(out)@.len(),
                out@.subrange(0, old(out)@.len() as int) == old(out)@,
            decreases fuel, 0int, dps@.len() - k,
        {
            let ghost mid = out@;
            match self.render_downstream_step(out, state, dps, k, fuel) {
                Ok(_) => {},
                Err(e) => {
                    return Err(e);
                },
            }
            proof {
                let delta = out@.subrange(mid.len() as int, out@.len() as int);
                assert(out@ =~= mid + delta);
                crate::text::lemma_suffix_extend(old(out)@, mid, delta);
                let nxt = spec_downstream_recurse(
                    devs,
                    slots,
                    state.model(),
                    dps@,
                    k + 1,
                    fuel as nat,
                );
                if nxt is Ok {
                    assert(mid.subrange(old(out)@.len() as int, mid.len() as int) + (delta
                        + nxt.unwrap().0) =~= (mid.subrange(
                        old(out)@.len() as int,
                        mid.len() as int,
                    ) + delta) + nxt.unwrap().0);
                }
            }
            k += 1;
        }
        proof {
            reveal_with_fuel(spec_downstream_recurse, 1);
                reveal_with_fuel(spec_write_bus, 1);
            assert(spec_downstream_recurse(
                devs,
                slots,
                state.model(),
                dps@,
                dps@.len() as int,
                fuel as nat,
            ) == Ok::<(Seq<u8>, Seq<Seq<u8>>), RenderError>((Seq::<u8>::empty(), state.model())));
            assert(final(out)@ =~= old(out)@ + final(out)@.subrange(
                old(out)@.len() as int,
                final(out)@.len() as int,
            ));
            assert(final(out)@.subrange(old(out)@.len() as int, final(out)@.len() as int)
                + Seq::<u8>::empty() =~= final(out)@.subrange(
                old(out)@.len() as int,
                final(out)@.len() as int,
            ));
        }
        Ok(())
    }

    /// Renders one upstream port: its switch cluster, internal edges, and
    /// the walk below each of its downstream ports.
    #[verifier::rlimit(100)]
    fn render_upstream_step(
        &self,
        out: &mut Vec<u8>,
        state: &mut MachineWriteState,
        ups: &Vec<PciAddr>,
        k: usize,
        domain: u16,
        fuel: u32,
    ) -> (r: Result<(), RenderError>)
        requires
            crate::machine::all_found(self.devices_model(), ups@),
            k < ups@.len(),
        ensures
            ({
                let pre = spec_upstream_loop(
                    self.devices_model(),
                    self.slots_model(),
                    old(state).model(),
                    ups@,
                    k as int,
                    domain,
                    fuel as nat,
                );
                match r {
                    Ok(_) => final(out)@.len() >= old(out)@.len() && final(out)@.subrange(
                        0,
                        old(out)@.len() as int,
                    ) == old(out)@ && pre == (match spec_upstream_loop(
                        self.devices_model(),
                        self.slots_model(),
                        final(state).model(),
                        ups@,
                        k + 1,
                        domain,
                        fuel as nat,
                    ) {
                        Err(e) => Err::<(Seq<u8>, Seq<Seq<u8>>), RenderError>(e),
                        Ok(p) => Ok(
                            (
                                final(out)@.subrange(
                                    old(out)@.len() as int,
                                    final(out)@.len() as int,
                                ) + p.0,
                                p.1,
                            ),
                        ),
                    }),
                    Err(e) => pre == Err::<(Seq<u8>, Seq<Seq<u8>>), RenderError>(e),
                }
            }),
        decreases fuel, 2int,
    {
        let ghost devs = self.devices_model();
        let ghost slots = self.slots_model();
        let a = ups[k];
        let dev = self.lookup_device(a);
        let dpb = match dev.secondary_bus() {
            None => {
                proof {
                    reveal_with_fuel(spec_upstream_loop, 1);
                reveal_with_fuel(spec_downstream_recurse, 1);
                    assert(ups@[k as int] == a);
                    assert(spec_find_device(devs, a.spec_key()).unwrap() == dev@);
                    assert(crate::pci_device::spec_secondary_bus(dev@.desc) is None);
                }
                return Err(RenderError::MissingSecondaryBus);
            },
            Some(dpb) => dpb,
        };
        let dps = self.bus_devices(a.domain(), dpb);
        let uid = match self.pci_device_unique_id(dev) {
            None => {
                proof {
                    reveal_with_fuel(spec_upstream_loop, 1);
                reveal_with_fuel(spec_downstream_recurse, 1);
                    assert(ups@[k as int] == a);
                    assert(spec_find_device(devs, a.spec_key()).unwrap() == dev@);
                    assert(crate::pci_device::spec_secondary_bus(dev@.desc) == Some(dpb));
                    assert(spec_unique_id(devs, dev@) is None);
                }
                return Err(RenderError::MissingSecondaryBus);
            },
            Some(uid) => uid,
        };
        let ix = state.get_cluster_index(uid.as_slice());
        self.emit_switch_cluster(out, a, &dps, domain, dpb, ix);
        let ghost t = "\n\tsubgraph cluster".spec_bytes() + crate::text::dec_seq(ix as nat)
            + " {\n\t\tlabel=\"PCIe switch\";\n\t\t\"".spec_bytes() + a.spec_text()
            + "\";\n".spec_bytes() + spec_node_lines(dps@, 0) + "\t}\n".spec_bytes()
            + "\n\t# domain ".spec_bytes() + crate::text::hex_seq(domain as nat, 4)
            + " bus ".spec_bytes() + crate::text::hex_seq(dpb as nat, 2)
            + " is a switch internal bus\n".spec_bytes() + spec_edge_lines(a, dps@, 0);
        proof {
            assert(out@ =~= old(out)@ + t);
            crate::machine::lemma_bus_devices_found(devs, a.domain, dpb);
        }
        let ghost mid2 = out@;
        let ghost stmid2 = state.model();
        match self.render_downstream(out, state, &dps, fuel) {
            Ok(_) => {},
            Err(e) => {
                proof {
                    reveal_with_fuel(spec_upstream_loop, 1);
                reveal_with_fuel(spec_downstream_recurse, 1);
                    assert(ups@[k as int] == a);
                    assert(spec_find_device(devs, a.spec_key()).unwrap() == dev@);
                    assert(crate::pci_device::spec_secondary_bus(dev@.desc) == Some(dpb));
                    assert(spec_unique_id(devs, dev@) == Some(uid@));
                    assert(spec_downstream_recurse(devs, slots, stmid2, dps@, 0, fuel as nat)
                        == Err::<(Seq<u8>, Seq<Seq<u8>>), RenderError>(e));
                }
                return Err(e);
            },
        }
        proof {
            reveal_with_fuel(spec_upstream_loop, 1);
                reveal_with_fuel(spec_downstream_recurse, 1);
            assert(ups@[k as int] == a);
            assert(spec_find_device(devs, a.spec_key()).unwrap() == dev@);
            assert(crate::pci_device::spec_secondary_bus(dev@.desc) == Some(dpb));
            assert(spec_unique_id(devs, dev@) == Some(uid@));
            let inner = spec_downstream_recurse(devs, slots, stmid2, dps@, 0, fuel as nat);
            assert(out@ =~= mid2 + inner.unwrap().0);
            assert(out@.subrange(old(out)@.len() as int, out@.len() as int) =~= t
                + inner.unwrap().0);
            assert(out@.subrange(0, old(out)@.len() as int) =~= old(out)@);
        }
        Ok(())
    }

    /// Renders the switch fabric of a bus: per upstream port, its cluster,
    /// its internal edges, and the walk below each downstream port.
    #[verifier::rlimit(100)]
    fn render_upstream(
        &self,
        out: &mut Vec<u8>,
        state: &mut MachineWriteState,
        ups: &Vec<PciAddr>,
        domain: u16,
        fuel: u32,
    ) -> (r: Result<(), RenderError>)
        requires
            crate::machine::all_found(self.devices_model(), ups@),
        ensures
            ({
                let res = spec_upstream_loop(
                    self.devices_model(),
                    self.slots_model(),
                    old(state).model(),
                    ups@,
                    0,
                    domain,
                    fuel as nat,
                );
                match r {
                    Ok(_) => {
                        &&& res is Ok
                        &&& final(out)@ == old(out)@ + res.unwrap().0
                        &&& final(state).model() == res.unwrap().1
                    },
                    Err(e) => res == Err::<(Seq<u8>, Seq<Seq<u8>>), RenderError>(e),
                }
            }),
        decreases fuel, 3int,
    {
        let ghost devs = self.devices_model();
        let ghost slots = self.slots_model();
        let ghost st0 = state.model();
        let mut k: usize = 0;
        proof {
            let nxt0 = spec_upstream_loop(devs, slots, st0, ups@, 0, domain, fuel as nat);
            assert(out@.subrange(old(out)@.len() as int, out@.len() as int) =~= Seq::<
                u8,
            >::empty());
            if nxt0 is Ok {
                assert(Seq::<u8>::empty() + nxt0.unwrap().0 =~= nxt0.unwrap().0);
            }
            assert(out@.subrange(0, old(out)@.len() as int) =~= old(out)@);
        }
        while k < ups.len()
            invariant
                devs == self.devices_model(),
                slots == self.slots_model(),
                crate::machine::all_found(devs, ups@),
                st0 == old(state).model(),
                k <= ups@.len(),
                spec_upstream_loop(devs, slots, st0, ups@, 0, domain, fuel as nat) == (
                match spec_upstream_loop(
                    devs,
                    slots,
                    state.model(),
                    ups@,
                    k as int,
                    domain,
                    fuel as nat,
                ) {
                    Err(e) => Err::<(Seq<u8>, Seq<Seq<u8>>), RenderError>(e),
                    Ok(p) => Ok(
                        (
                            out@.subrange(old(out)@.len() as int, out@.len() as int) + p.0,
                            p.1,
                        ),
                    ),
                }),
                out@.len() >= old(out)@.len(),
                out@.subrange(0, old(out)@.len() as int) == old(out)@,
            decreases fuel, 2int, ups@.len() - k,
        {
            let ghost mid = out@;
            match self.render_upstream_step(out, state, ups, k, domain, fuel) {
                Ok(_) => {},
                Err(e) => {
                    return Err(e);
                },
            }
            proof {
                let delta = out@.subrange(mid.len() as int, out@.len() as int);
                assert(out@ =~= mid + delta);
                crate::text::lemma_suffix_extend(old(out)@, mid, delta);
                let nxt = spec_upstream_loop(
                    devs,
                    slots,
                    state.model(),
                    ups@,
                    k + 1,
                    domain,
                    fuel as nat,
                );
                if nxt is Ok {
                    assert(mid.subrange(old(out)@.len() as int, mid.len() as int) + (delta
                        + nxt.unwrap().0) =~= (mid.subrange(
                        old(out)@.len() as int,
                        mid.len() as int,
                    ) + delta) + nxt.unwrap().0);
                }
            }
            k += 1;
        }
        proof {
            reveal_with_fuel(spec_upstream_loop, 1);
                reveal_with_fuel(spec_downstream_recurse, 1);
            assert(spec_upstream_loop(
                devs,
                slots,
                state.model(),
                ups@,
                ups@.len() as int,
                domain,
                fuel as nat,
            ) == Ok::<(Seq<u8>, Seq<Seq<u8>>), RenderError>((Seq::<u8>::empty(), state.model())));
            assert(final(out)@ =~= old(out)@ + final(out)@.subrange(
                old(out)@.len() as int,
                final(out)@.len() as int,
            ));
            assert(final(out)@.subrange(old(out)@.len() as int, final(out)@.len() as int)
                + Seq::<u8>::empty() =~= final(out)@.subrange(
                old(out)@.len() as int,
                final(out)@.len() as int,
            ));
        }
        Ok(())
    }
}

impl Machine {
    /// Appends a bridge's one-member cluster with its numbered header.
    #[verifier::rlimit(100)]
    fn emit_bridge_cluster(&self, out: &mut Vec<u8>, a: PciAddr, ix: usize)
        ensures
            final(out)@ == old(out)@ + ("\n\tsubgraph cluster".spec_bytes()
                + crate::text::dec_seq(ix as nat)
                + " {\n\t\tlabel=\"PCI bridge\";\n\t\t\"".spec_bytes() + a.spec_text()
                + "\";\n\t}\n".spec_bytes()),
    {
        crate::text::append_lit(out, "\n\tsubgraph cluster");
        crate::text::emit_dec(out, ix as u64);
        crate::text::append_lit(out, " {\n\t\tlabel=\"PCI bridge\";\n\t\t\"");
        a.emit(out);
        crate::text::append_lit(out, "\";\n\t}\n");
        proof {
            assert(final(out)@ =~= old(out)@ + ("\n\tsubgraph cluster".spec_bytes()
                + crate::text::dec_seq(ix as nat)
                + " {\n\t\tlabel=\"PCI bridge\";\n\t\t\"".spec_bytes() + a.spec_text()
                + "\";\n\t}\n".spec_bytes()));
        }
    }

    /// Appends the secondary-bus comment of a bridge and its devices.
    #[verifier::rlimit(100)]
    fn emit_bridge_tail(&self, out: &mut Vec<u8>, a: PciAddr, domain: u16, sec: u8, sdevs: &Vec<
        PciAddr,
    >)
        requires
            crate::machine::all_found(self.devices_model(), sdevs@),
        ensures
            final(out)@ == old(out)@ + ("\n\t# domain ".spec_bytes() + crate::text::hex_seq(
                domain as nat,
                4,
            ) + " bus ".spec_bytes() + crate::text::hex_seq(sec as nat, 2) + "\n".spec_bytes()
                + spec_bridge_children(self.devices_model(), a, sdevs@, 0)),
    {
        proof {
            crate::text::lemma_pow16_vals();
        }
        crate::text::append_lit(out, "\n\t# domain ");
        crate::text::emit_hex(out, domain as u64, 4);
        crate::text::append_lit(out, " bus ");
        crate::text::emit_hex(out, sec as u64, 2);
        crate::text::append_lit(out, "\n");
        self.emit_bridge_children(out, a, sdevs);
        proof {
            assert(final(out)@ =~= old(out)@ + ("\n\t# domain ".spec_bytes()
                + crate::text::hex_seq(domain as nat, 4) + " bus ".spec_bytes()
                + crate::text::hex_seq(sec as nat, 2) + "\n".spec_bytes()
                + spec_bridge_children(self.devices_model(), a, sdevs@, 0)));
        }
    }

    /// Renders one bridge: its one-member cluster and the devices of its
    /// secondary bus.
    #[verifier::rlimit(100)]
    fn render_bridge_step(
        &self,
        out: &mut Vec<u8>,
        state: &mut MachineWriteState,
        brs: &Vec<PciAddr>,
        k: usize,
        domain: u16,
    ) -> (r: Result<(), RenderError>)
        requires
            crate::machine::all_found(self.devices_model(), brs@),
            k < brs@.len(),
        ensures
            ({
                let pre = spec_bridge_loop(
                    self.devices_model(),
                    old(state).model(),
                    brs@,
                    k as int,
                    domain,
                );
                match r {
                    Ok(_) => final(out)@.len() >= old(out)@.len() && final(out)@.subrange(
                        0,
                        old(out)@.len() as int,
                    ) == old(out)@ && pre == (match spec_bridge_loop(
                        self.devices_model(),
                        final(state).model(),
                        brs@,
                        k + 1,
                        domain,
                    ) {
                        Err(e) => Err::<(Seq<u8>, Seq<Seq<u8>>), RenderError>(e),
                        Ok(p) => Ok(
                            (
                                final(out)@.subrange(
                                    old(out)@.len() as int,
                                    final(out)@.len() as int,
                                ) + p.0,
                                p.1,
                            ),
                        ),
                    }),
                    Err(e) => pre == Err::<(Seq<u8>, Seq<Seq<u8>>), RenderError>(e),
                }
            }),
    {
        let ghost devs = self.devices_model();
        let a = brs[k];
        let dev = self.lookup_device(a);
        let uid = match self.pci_device_unique_id(dev) {
            None => {
                proof {
                    reveal_with_fuel(spec_bridge_loop, 1);
                    assert(brs@[k as int] == a);
                    assert(spec_find_device(devs, a.spec_key()).unwrap() == dev@);
                    assert(spec_unique_id(devs, dev@) is None);
                }
                return Err(RenderError::MissingSecondaryBus);
            },
            Some(uid) => uid,
        };
        let ix = state.get_cluster_index(uid.as_slice());
        self.emit_bridge_cluster(out, a, ix);
        let sec = match dev.secondary_bus() {
            None => {
                proof {
                    reveal_with_fuel(spec_bridge_loop, 1);
                    assert(brs@[k as int] == a);
                    assert(spec_find_device(devs, a.spec_key()).unwrap() == dev@);
                    assert(spec_unique_id(devs, dev@) == Some(uid@));
                    assert(crate::pci_device::spec_secondary_bus(dev@.desc) is None);
                }
                return Err(RenderError::MissingSecondaryBus);
            },
            Some(sec) => sec,
        };
        let sdevs = self.bus_devices(a.domain(), sec);
        proof {
            crate::machine::lemma_bus_devices_found(devs, a.domain, sec);
        }
        self.emit_bridge_tail(out, a, domain, sec, &sdevs);
        proof {
            reveal_with_fuel(spec_bridge_loop, 1);
            assert(brs@[k as int] == a);
            assert(spec_find_device(devs, a.spec_key()).unwrap() == dev@);
            assert(spec_unique_id(devs, dev@) == Some(uid@));
            assert(crate::pci_device::spec_secondary_bus(dev@.desc) == Some(sec));
            let t1 = "\n\tsubgraph cluster".spec_bytes() + crate::text::dec_seq(ix as nat)
                + " {\n\t\tlabel=\"PCI bridge\";\n\t\t\"".spec_bytes() + a.spec_text()
                + "\";\n\t}\n".spec_bytes();
            let t2 = "\n\t# domain ".spec_bytes() + crate::text::hex_seq(domain as nat, 4)
                + " bus ".spec_bytes() + crate::text::hex_seq(sec as nat, 2) + "\n".spec_bytes()
                + spec_bridge_children(devs, a, sdevs@, 0);
            assert(final(out)@ =~= old(out)@ + (t1 + t2));
            assert(final(out)@.subrange(old(out)@.len() as int, final(out)@.len() as int) =~= t1
                + t2);
            assert(final(out)@.subrange(0, old(out)@.len() as int) =~= old(out)@);
        }
        Ok(())
    }

    /// Renders the legacy segments of a bus: per bridge, its one-member
    /// cluster and the devices of its secondary bus.
    #[verifier::rlimit(100)]
    fn render_bridges(
        &self,
        out: &mut Vec<u8>,
        state: &mut MachineWriteState,
        brs: &Vec<PciAddr>,
        domain: u16,
    ) -> (r: Result<(), RenderError>)
        requires
            crate::machine::all_found(self.devices_model(), brs@),
        ensures
            ({
                let res = spec_bridge_loop(
                    self.devices_model(),
                    old(state).model(),
                    brs@,
                    0,
                    domain,
                );
                match r {
                    Ok(_) => {
                        &&& res is Ok
                        &&& final(out)@ == old(out)@ + res.unwrap().0
                        &&& final(state).model() == res.unwrap().1
                    },
                    Err(e) => res == Err::<(Seq<u8>, Seq<Seq<u8>>), RenderError>(e),
                }
            }),
    {
        let ghost devs = self.devices_model();
        let ghost st0 = state.model();
        let mut k: usize = 0;
        proof {
            let nxt0 = spec_bridge_loop(devs, st0, brs@, 0, domain);
            assert(out@.subrange(old(out)@.len() as int, out@.len() as int) =~= Seq::<
                u8,
            >::empty());
            if nxt0 is Ok {
                assert(Seq::<u8>::empty() + nxt0.unwrap().0 =~= nxt0.unwrap().0);
            }
            assert(out@.subrange(0, old(out)@.len() as int) =~= old(out)@);
        }
        while k < brs.len()
            invariant
                devs == self.devices_model(),
                crate::machine::all_found(devs, brs@),
                st0 == old(state).model(),
                k <= brs@.len(),
                spec_bridge_loop(devs, st0, brs@, 0, domain) == (match spec_bridge_loop(
                    devs,
                    state.model(),
                    brs@,
                    k as int,
                    domain,
                ) {
                    Err(e) => Err::<(Seq<u8>, Seq<Seq<u8>>), RenderError>(e),
                    Ok(p) => Ok(
                        (
                            out@.subrange(old(out)@.len() as int, out@.len() as int) + p.0,
                            p.1,
                        ),
                    ),
                }),
                out@.len() >= old(out)@.len(),
                out@.subrange(0, old(out)@.len() as int) == old(out)@,
            decreases brs@.len() - k,
        {
            let ghost mid = out@;
            match self.render_bridge_step(out, state, brs, k, domain) {
                Ok(_) => {},
                Err(e) => {
                    return Err(e);
                },
            }
            proof {
                let delta = out@.subrange(mid.len() as int, out@.len() as int);
                assert(out@ =~= mid + delta);
                crate::text::lemma_suffix_extend(old(out)@, mid, delta);
                let nxt = spec_bridge_loop(devs, state.model(), brs@, k + 1, domain);
                if nxt is Ok {
                    assert(mid.subrange(old(out)@.len() as int, mid.len() as int) + (delta
                        + nxt.unwrap().0) =~= (mid.subrange(
                        old(out)@.len() as int,
                        mid.len() as int,
                    ) + delta) + nxt.unwrap().0);
                }
            }
            k += 1;
        }
        proof {
            reveal_with_fuel(spec_bridge_loop, 1);
            assert(spec_bridge_loop(devs, state.model(), brs@, brs@.len() as int, domain)
                == Ok::<(Seq<u8>, Seq<Seq<u8>>), RenderError>((Seq::<u8>::empty(),
            state.model())));
            assert(final(out)@ =~= old(out)@ + final(out)@.subrange(
                old(out)@.len() as int,
                final(out)@.len() as int,
            ));
            assert(final(out)@.subrange(old(out)@.len() as int, final(out)@.len() as int)
                + Seq::<u8>::empty() =~= final(out)@.subrange(
                old(out)@.len() as int,
                final(out)@.len() as int,
            ));
        }
        Ok(())
    }

    /// Renders the leaf of a bus: its first endpoint's node and, for a
    /// multi-function device, the unlabeled cluster and chain of the rest.
    #[verifier::rlimit(100)]
    fn render_endpoints(
        &self,
        out: &mut Vec<u8>,
        state: &mut MachineWriteState,
        eps: &Vec<PciAddr>,
    ) -> (r: Result<(), RenderError>)
        requires
            crate::machine::all_found(self.devices_model(), eps@),
            eps@.len() > 0,
        ensures
            ({
                let res = spec_endpoint_part(self.devices_model(), old(state).model(), eps@);
                match r {
                    Ok(_) => {
                        &&& res is Ok
                        &&& final(out)@ == old(out)@ + res.unwrap().0
                        &&& final(state).model() == res.unwrap().1
                    },
                    Err(e) => res == Err::<(Seq<u8>, Seq<Seq<u8>>), RenderError>(e),
                }
            }),
    {
        let ghost devs = self.devices_model();
        let first = eps[0];
        let fdev = self.lookup_device(first);
        crate::text::append_lit(out, "\n\t\"");
        first.emit(out);
        crate::text::append_lit(out, "\" [ label=\"");
        emit_device_name(out, fdev);
        crate::text::append_lit(out, "\\n");
        first.emit(out);
        crate::text::append_lit(out, "\" ];\n");
        let ghost t1 = "\n\t\"".spec_bytes() + first.spec_text() + "\" [ label=\"".spec_bytes()
            + spec_device_name(fdev@) + "\\n".spec_bytes() + first.spec_text()
            + "\" ];\n".spec_bytes();
        proof {
            assert(out@ =~= old(out)@ + t1);
        }
        if eps.len() > 1 {
            let uid = match self.pci_device_unique_id(fdev) {
                None => {
                    proof {
                        reveal(spec_endpoint_part);
                        assert(spec_find_device(devs, eps@[0].spec_key()).unwrap() == fdev@);
                        assert(spec_unique_id(devs, fdev@) is None);
                    }
                    return Err(RenderError::MissingSecondaryBus);
                },
                Some(uid) => uid,
            };
            let ix = state.get_cluster_index(uid.as_slice());
            crate::text::append_lit(out, "\n\tsubgraph cluster");
            crate::text::emit_dec(out, ix as u64);
            crate::text::append_lit(out, " {\n");
            emit_node_lines(out, eps);
            crate::text::append_lit(out, "\t}\n");
            let ghost t2 = "\n\tsubgraph cluster".spec_bytes() + crate::text::dec_seq(ix as nat)
                + " {\n".spec_bytes() + spec_node_lines(eps@, 0) + "\t}\n".spec_bytes();
            proof {
                assert(out@ =~= old(out)@ + t1 + t2);
            }
            self.emit_endpoint_chain(out, eps);
            proof {
                reveal(spec_endpoint_part);
                assert(spec_find_device(devs, eps@[0].spec_key()).unwrap() == fdev@);
                assert(final(out)@ =~= old(out)@ + (t1 + t2 + spec_endpoint_chain(
                    devs,
                    eps@,
                    0,
                )));
            }
            Ok(())
        } else {
            proof {
                reveal(spec_endpoint_part);
                assert(spec_find_device(devs, eps@[0].spec_key()).unwrap() == fdev@);
                assert(final(out)@ =~= old(out)@ + t1);
            }
            Ok(())
        }
    }

    /// Renders one bus and everything below it: the bus head, then the
    /// switch fabric, the legacy segment, or the endpoint leaf, whichever
    /// the bus holds. The fuel bounds the depth of cascaded switches.
    #[verifier::rlimit(100)]
    pub fn write_bus(
        &self,
        out: &mut Vec<u8>,
        state: &mut MachineWriteState,
        parent_dev: &PciDevice,
        domain: u16,
        bus: u8,
        fuel: u32,
    ) -> (r: Result<(), RenderError>)
        ensures
            ({
                let res = spec_write_bus(
                    self.devices_model(),
                    self.slots_model(),
                    old(state).model(),
                    parent_dev@,
                    domain,
                    bus,
                    fuel as nat,
                );
                match r {
                    Ok(_) => {
                        &&& res is Ok
                        &&& final(out)@ == old(out)@ + res.unwrap().0
                        &&& final(state).model() == res.unwrap().1
                    },
                    Err(e) => res == Err::<(Seq<u8>, Seq<Seq<u8>>), RenderError>(e),
                }
            }),
        decreases fuel, 4int,
    {
        let ghost devs = self.devices_model();
        let ghost slots = self.slots_model();
        let ghost st0 = state.model();
        match self.write_bus_head(out, parent_dev, domain, bus) {
            Ok(_) => {},
            Err(e) => {
                proof {
                    reveal_with_fuel(spec_write_bus, 1);
                    reveal_with_fuel(spec_upstream_loop, 1);
                    reveal_with_fuel(spec_bridge_loop, 1);
                    reveal(spec_endpoint_part);
                }
                return Err(e);
            },
        }
        let ghost head = spec_bus_head(devs, slots, parent_dev@, domain, bus).unwrap();
        let bdevs = self.bus_devices(domain, bus);
        proof {
            crate::machine::lemma_bus_devices_found(devs, domain, bus);
        }
        let ups = self.filter_role(&bdevs, Role::UpstreamPort);
        let brs = self.filter_role(&bdevs, Role::PciBridge);
        let eps = self.filter_role(&bdevs, Role::Endpoint);
        proof {
            lemma_filter_found(devs, bdevs@, Role::UpstreamPort);
            lemma_filter_found(devs, bdevs@, Role::PciBridge);
            lemma_filter_found(devs, bdevs@, Role::Endpoint);
        }
        if ups.len() > 0 {
            match self.render_upstream(out, state, &ups, domain, fuel) {
                Ok(_) => {},
                Err(e) => {
                    proof {
                        reveal_with_fuel(spec_write_bus, 1);
                        reveal_with_fuel(spec_upstream_loop, 1);
                        reveal_with_fuel(spec_bridge_loop, 1);
                        reveal(spec_endpoint_part);
                    }
                    return Err(e);
                },
            }
            proof {
                reveal_with_fuel(spec_write_bus, 1);
                reveal_with_fuel(spec_upstream_loop, 1);
                reveal_with_fuel(spec_bridge_loop, 1);
                reveal(spec_endpoint_part);
                let p = spec_upstream_loop(devs, slots, st0, ups@, 0, domain, fuel as nat);
                assert(final(out)@ =~= old(out)@ + (head + p.unwrap().0));
            }
            Ok(())
        } else if brs.len() > 0 {
            match self.render_bridges(out, state, &brs, domain) {
                Ok(_) => {},
                Err(e) => {
                    proof {
                        reveal_with_fuel(spec_write_bus, 1);
                        reveal_with_fuel(spec_upstream_loop, 1);
                        reveal_with_fuel(spec_bridge_loop, 1);
                        reveal(spec_endpoint_part);
                    }
                    return Err(e);
                },
            }
            proof {
                reveal_with_fuel(spec_write_bus, 1);
                reveal_with_fuel(spec_upstream_loop, 1);
                reveal_with_fuel(spec_bridge_loop, 1);
                reveal(spec_endpoint_part);
                let p = spec_bridge_loop(devs, st0, brs@, 0, domain);
                assert(final(out)@ =~= old(out)@ + (head + p.unwrap().0));
            }
            Ok(())
        } else if eps.len() > 0 {
            match self.render_endpoints(out, state, &eps) {
                Ok(_) => {},
                Err(e) => {
                    proof {
                        reveal_with_fuel(spec_write_bus, 1);
                        reveal_with_fuel(spec_upstream_loop, 1);
                        reveal_with_fuel(spec_bridge_loop, 1);
                        reveal(spec_endpoint_part);
                    }
                    return Err(e);
                },
            }
            proof {
                reveal_with_fuel(spec_write_bus, 1);
                reveal_with_fuel(spec_upstream_loop, 1);
                reveal_with_fuel(spec_bridge_loop, 1);
                reveal(spec_endpoint_part);
                let p = spec_endpoint_part(devs, st0, eps@);
                assert(final(out)@ =~= old(out)@ + (head + p.unwrap().0));
            }
            Ok(())
        } else {
            proof {
                reveal_with_fuel(spec_write_bus, 1);
                reveal_with_fuel(spec_upstream_loop, 1);
                reveal_with_fuel(spec_bridge_loop, 1);
                reveal(spec_endpoint_part);
                assert(final(out)@ =~= old(out)@ + head);
            }
            Ok(())
        }
    }
}

impl Machine {
    /// Renders what one device contributes to the graph body: a root port
    /// with a stated downstream bus yields its banner, its rectangle node,
    /// its group cluster, and the walk of its bus; any other device yields
    /// nothing.
    #[verifier::rlimit(100)]
    fn render_graph_step(
        &self,
        out: &mut Vec<u8>,
        state: &mut MachineWriteState,
        k: usize,
    ) -> (r: Result<(), RenderError>)
        requires
            k < self.devices@.len(),
        ensures
            ({
                let pre = spec_graph_loop(
                    self.devices_model(),
                    self.slots_model(),
                    old(state).model(),
                    k as int,
                    spec_render_depth(),
                );
                match r {
                    Ok(_) => final(out)@.len() >= old(out)@.len() && final(out)@.subrange(
                        0,
                        old(out)@.len() as int,
                    ) == old(out)@ && pre == (match spec_graph_loop(
                        self.devices_model(),
                        self.slots_model(),
                        final(state).model(),
                        k + 1,
                        spec_render_depth(),
                    ) {
                        Err(e) => Err::<(Seq<u8>, Seq<Seq<u8>>), RenderError>(e),
                        Ok(p) => Ok(
                            (
                                final(out)@.subrange(
                                    old(out)@.len() as int,
                                    final(out)@.len() as int,
                                ) + p.0,
                                p.1,
                            ),
                        ),
                    }),
                    Err(e) => pre == Err::<(Seq<u8>, Seq<Seq<u8>>), RenderError>(e),
                }
            }),
    {
        let ghost devs = self.devices_model();
        let ghost slots = self.slots_model();
        let ghost stmid = state.model();
        let dev = &self.devices[k];
        proof {
            assert(devs[k as int] == dev@);
        }
        if !dev.is_root_port() {
            proof {
                reveal_with_fuel(spec_graph_loop, 1);
                reveal_with_fuel(spec_write_bus, 1);
                assert(out@.subrange(old(out)@.len() as int, out@.len() as int) =~= Seq::<
                    u8,
                >::empty());
                let nxt = spec_graph_loop(devs, slots, stmid, k + 1, spec_render_depth());
                if nxt is Ok {
                    assert(Seq::<u8>::empty() + nxt.unwrap().0 =~= nxt.unwrap().0);
                }
                assert(out@.subrange(0, old(out)@.len() as int) =~= old(out)@);
            }
            return Ok(());
        }
        let sb = match dev.secondary_bus() {
            None => {
                proof {
                    reveal_with_fuel(spec_graph_loop, 1);
                    reveal_with_fuel(spec_write_bus, 1);
                    assert(out@.subrange(old(out)@.len() as int, out@.len() as int) =~= Seq::<
                        u8,
                    >::empty());
                    let nxt = spec_graph_loop(devs, slots, stmid, k + 1, spec_render_depth());
                    if nxt is Ok {
                        assert(Seq::<u8>::empty() + nxt.unwrap().0 =~= nxt.unwrap().0);
                    }
                    assert(out@.subrange(0, old(out)@.len() as int) =~= old(out)@);
                }
                return Ok(());
            },
            Some(sb) => sb,
        };
        crate::text::append_lit(
            out,
            "\n\t######################################################################\n\t# root port ",
        );
        dev.addr.emit(out);
        crate::text::append_lit(out, "\n\n\t\"");
        dev.addr.emit(out);
        crate::text::append_lit(out, "\" [ label=\"Root port\\n");
        dev.addr.emit(out);
        crate::text::append_lit(out, "\" shape=rectangle ];\n\n\tsubgraph cluster");
        let group = dev.device_group_name();
        let ix = state.get_cluster_index(group.as_slice());
        crate::text::emit_dec(out, ix as u64);
        crate::text::append_lit(out, " {\n\t\tlabel=\"");
        crate::text::append_bytes(out, group.as_slice());
        crate::text::append_lit(out, "\";\n\t\t\"");
        dev.addr.emit(out);
        crate::text::append_lit(out, "\";\n\t}\n");
        let ghost t =
            "\n\t######################################################################\n\t# root port ".spec_bytes()
            + dev@.addr.spec_text() + "\n\n\t\"".spec_bytes() + dev@.addr.spec_text()
            + "\" [ label=\"Root port\\n".spec_bytes() + dev@.addr.spec_text()
            + "\" shape=rectangle ];\n\n\tsubgraph cluster".spec_bytes()
            + crate::text::dec_seq(ix as nat) + " {\n\t\tlabel=\"".spec_bytes() + group@
            + "\";\n\t\t\"".spec_bytes() + dev@.addr.spec_text() + "\";\n\t}\n".spec_bytes();
        proof {
            assert(out@ =~= old(out)@ + t);
        }
        let ghost mid2 = out@;
        let ghost stmid2 = state.model();
        let depth: u32 = 256;
        proof {
            assert(depth as nat == spec_render_depth());
        }
        match self.write_bus(out, state, dev, dev.addr.domain(), sb, depth) {
            Ok(_) => {},
            Err(e) => {
                proof {
                    reveal_with_fuel(spec_graph_loop, 1);
                    reveal_with_fuel(spec_write_bus, 1);
                    assert(spec_write_bus(
                        devs,
                        slots,
                        stmid2,
                        dev@,
                        dev@.addr.domain,
                        sb,
                        spec_render_depth(),
                    ) == Err::<(Seq<u8>, Seq<Seq<u8>>), RenderError>(e));
                }
                return Err(e);
            },
        }
        proof {
            reveal_with_fuel(spec_graph_loop, 1);
            reveal_with_fuel(spec_write_bus, 1);
            let inner = spec_write_bus(
                devs,
                slots,
                stmid2,
                dev@,
                dev@.addr.domain,
                sb,
                spec_render_depth(),
            );
            assert(out@ =~= mid2 + inner.unwrap().0);
            assert(out@.subrange(old(out)@.len() as int, out@.len() as int) =~= t
                + inner.unwrap().0);
            assert(out@.subrange(0, old(out)@.len() as int) =~= old(out)@);
        }
        Ok(())
    }

    /// Renders the whole graph description into `out`: the header lines,
    /// every root port's subtree in address order, and the closing brace.
    #[verifier::rlimit(100)]
    pub fn write_graph(&self, out: &mut Vec<u8>) -> (r: Result<(), RenderError>)
        ensures
            ({
                let res = spec_write_graph(self.devices_model(), self.slots_model());
                match r {
                    Ok(_) => res is Ok && final(out)@ == old(out)@ + res.unwrap(),
                    Err(e) => res == Err::<Seq<u8>, RenderError>(e),
                }
            }),
    {
        let ghost devs = self.devices_model();
        let ghost slots = self.slots_model();
        let mut state = MachineWriteState::new();
        let ghost base = out@;
        crate::text::append_lit(out, "graph pci {\n\trankdir=LR;\n");
        let ghost hdr = "graph pci {\n\trankdir=LR;\n".spec_bytes();
        let mut k: usize = 0;
        proof {
            assert(out@ =~= base + hdr);
            assert(out@.subrange(base.len() as int, out@.len() as int) =~= Seq::<u8>::empty()
                + hdr);
            assert(out@.subrange(out@.len() as int, out@.len() as int) =~= Seq::<u8>::empty());
            let nxt0 = spec_graph_loop(
                devs,
                slots,
                state.model(),
                0,
                spec_render_depth(),
            );
            if nxt0 is Ok {
                assert(Seq::<u8>::empty() + nxt0.unwrap().0 =~= nxt0.unwrap().0);
            }
            assert(out@.subrange(0, base.len() + hdr.len() as int) =~= base + hdr);
        }
        while k < self.devices.len()
            invariant
                devs == self.devices_model(),
                slots == self.slots_model(),
                base == old(out)@,
                hdr == "graph pci {\n\trankdir=LR;\n".spec_bytes(),
                k <= devs.len(),
                spec_graph_loop(devs, slots, Seq::<Seq<u8>>::empty(), 0, spec_render_depth())
                    == (match spec_graph_loop(
                    devs,
                    slots,
                    state.model(),
                    k as int,
                    spec_render_depth(),
                ) {
                    Err(e) => Err::<(Seq<u8>, Seq<Seq<u8>>), RenderError>(e),
                    Ok(p) => Ok(
                        (
                            out@.subrange(base.len() + hdr.len() as int, out@.len() as int)
                                + p.0,
                            p.1,
                        ),
                    ),
                }),
                out@.len() >= base.len() + hdr.len(),
                out@.subrange(0, base.len() + hdr.len() as int) == base + hdr,
            decreases devs.len() - k,
        {
            let ghost mid = out@;
            match self.render_graph_step(out, &mut state, k) {
                Ok(_) => {},
                Err(e) => {
                    return Err(e);
                },
            }
            proof {
                let delta = out@.subrange(mid.len() as int, out@.len() as int);
                assert(out@ =~= mid + delta);
                crate::text::lemma_suffix_extend(base + hdr, mid, delta);
                let nxt = spec_graph_loop(
                    devs,
                    slots,
                    state.model(),
                    k + 1,
                    spec_render_depth(),
                );
                if nxt is Ok {
                    assert(mid.subrange(base.len() + hdr.len() as int, mid.len() as int) + (
                    delta + nxt.unwrap().0) =~= (mid.subrange(
                        base.len() + hdr.len() as int,
                        mid.len() as int,
                    ) + delta) + nxt.unwrap().0);
                }
            }
            k += 1;
        }
        proof {
            reveal_with_fuel(spec_graph_loop, 1);
            assert(spec_graph_loop(
                devs,
                slots,
                state.model(),
                devs.len() as int,
                spec_render_depth(),
            ) == Ok::<(Seq<u8>, Seq<Seq<u8>>), RenderError>((Seq::<u8>::empty(), state.model())));
            assert(out@.subrange(base.len() + hdr.len() as int, out@.len() as int) + Seq::<
                u8,
            >::empty() =~= out@.subrange(base.len() + hdr.len() as int, out@.len() as int));
        }
        let ghost body = out@.subrange(base.len() + hdr.len() as int, out@.len() as int);
        proof {
            assert(out@ =~= (base + hdr) + body);
        }
        crate::text::append_lit(out, "}\n");
        proof {
            assert(final(out)@ =~= ((base + hdr) + body) + "}\n".spec_bytes());
            assert(((base + hdr) + body) + "}\n".spec_bytes() =~= base + (hdr + body
                + "}\n".spec_bytes()));
        }
        Ok(())
    }
}

} // verus!

