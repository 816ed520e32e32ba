//! The machine's topology: every device record and every physical slot,
//! keyed and ordered by PCI address.

use vstd::prelude::*;
use vstd::string::StringSliceAdditionalSpecFns;

use crate::pci_addr::PciAddr;
use crate::pci_device::{DeviceModel, PciDevice};
use crate::text::{
    all_hex, first_match_from, hex_value_of, is_hex_digit, lemma_hex_value_bound,
    lemma_pow16_vals, match_at,
    matches_at, read_hex,
};

verus! {

/// The machine: all device records and the slot table, each held in strict
/// address order, one entry per address.
#[derive(Debug)]
pub struct Machine {
    pub devices: Vec<PciDevice>,
    pub dmi_slots: Vec<(PciAddr, Vec<u8>)>,
}

/// The device sequence is strictly ascending by address key, so each address
/// occurs at most once.
pub open spec fn devices_sorted(s: Seq<DeviceModel>) -> bool {
    forall|i: int, j: int|
        0 <= i < j < s.len() ==> s[i].addr.spec_key() < s[j].addr.spec_key()
}

/// The slot sequence is strictly ascending by address key.
pub open spec fn slots_sorted(s: Seq<(PciAddr, Seq<u8>)>) -> bool {
    forall|i: int, j: int|
        0 <= i < j < s.len() ==> s[i].0.spec_key() < s[j].0.spec_key()
}

/// Inserting into an address-sorted device sequence: before the first larger
/// key, replacing an equal key.
pub open spec fn spec_insert_device(s: Seq<DeviceModel>, dev: DeviceModel) -> Seq<DeviceModel>
    decreases s.len(),
{
    if s.len() == 0 {
        seq![dev]
    } else if dev.addr.spec_key() < s[0].addr.spec_key() {
        seq![dev] + s
    } else if dev.addr.spec_key() == s[0].addr.spec_key() {
        seq![dev] + s.drop_first()
    } else {
        seq![s[0]] + spec_insert_device(s.drop_first(), dev)
    }
}

/// Inserting into an address-sorted slot sequence, replacing an equal key.
pub open spec fn spec_insert_slot(
    s: Seq<(PciAddr, Seq<u8>)>,
    addr: PciAddr,
    name: Seq<u8>,
) -> Seq<(PciAddr, Seq<u8>)>
    decreases s.len(),
{
    if s.len() == 0 {
        seq![(addr, name)]
    } else if addr.spec_key() < s[0].0.spec_key() {
        seq![(addr, name)] + s
    } else if addr.spec_key() == s[0].0.spec_key() {
        seq![(addr, name)] + s.drop_first()
    } else {
        seq![s[0]] + spec_insert_slot(s.drop_first(), addr, name)
    }
}

proof fn lemma_insert_device_at(s: Seq<DeviceModel>, dev: DeviceModel, i: int)
    requires
        0 <= i <= s.len(),
        forall|j: int| 0 <= j < i ==> s[j].addr.spec_key() < dev.addr.spec_key(),
        i < s.len() ==> s[i].addr.spec_key() >= dev.addr.spec_key(),
    ensures
        spec_insert_device(s, dev) == if i < s.len() && s[i].addr.spec_key()
            == dev.addr.spec_key() {
            s.update(i, dev)
        } else {
            s.subrange(0, i) + seq![dev] + s.subrange(i, s.len() as int)
        },
    decreases i,
{
    if i == 0 {
        if s.len() == 0 {
            assert(spec_insert_device(s, dev) =~= s.subrange(0, 0) + seq![dev] + s.subrange(
                0,
                0,
            ));
        } else if s[0].addr.spec_key() == dev.addr.spec_key() {
            assert(seq![dev] + s.drop_first() =~= s.update(0, dev));
        } else {
            assert(seq![dev] + s =~= s.subrange(0, 0) + seq![dev] + s.subrange(
                0,
                s.len() as int,
            ));
        }
    } else {
        let t = s.drop_first();
        assert(forall|j: int| 0 <= j < i - 1 ==> t[j].addr.spec_key() < dev.addr.spec_key());
        lemma_insert_device_at(t, dev, i - 1);
        assert(spec_insert_device(s, dev) == seq![s[0]] + spec_insert_device(t, dev));
        if i < s.len() && s[i].addr.spec_key() == dev.addr.spec_key() {
            assert(seq![s[0]] + t.update(i - 1, dev) =~= s.update(i, dev));
        } else {
            assert(seq![s[0]] + (t.subrange(0, i - 1) + seq![dev] + t.subrange(
                i - 1,
                t.len() as int,
            )) =~= s.subrange(0, i) + seq![dev] + s.subrange(i, s.len() as int));
        }
    }
}

proof fn lemma_insert_slot_at(s: Seq<(PciAddr, Seq<u8>)>, addr: PciAddr, name: Seq<u8>, i: int)
    requires
        0 <= i <= s.len(),
        forall|j: int| 0 <= j < i ==> s[j].0.spec_key() < addr.spec_key(),
        i < s.len() ==> s[i].0.spec_key() >= addr.spec_key(),
    ensures
        spec_insert_slot(s, addr, name) == if i < s.len() && s[i].0.spec_key()
            == addr.spec_key() {
            s.update(i, (addr, name))
        } else {
            s.subrange(0, i) + seq![(addr, name)] + s.subrange(i, s.len() as int)
        },
    decreases i,
{
    if i == 0 {
        if s.len() == 0 {
            assert(spec_insert_slot(s, addr, name) =~= s.subrange(0, 0) + seq![(addr, name)]
                + s.subrange(0, 0));
        } else if s[0].0.spec_key() == addr.spec_key() {
            assert(seq![(addr, name)] + s.drop_first() =~= s.update(0, (addr, name)));
        } else {
            assert(seq![(addr, name)] + s =~= s.subrange(0, 0) + seq![(addr, name)] + s.subrange(
                0,
                s.len() as int,
            ));
        }
    } else {
        let t = s.drop_first();
        assert(forall|j: int| 0 <= j < i - 1 ==> t[j].0.spec_key() < addr.spec_key());
        lemma_insert_slot_at(t, addr, name, i - 1);
        assert(spec_insert_slot(s, addr, name) == seq![s[0]] + spec_insert_slot(t, addr, name));
        if i < s.len() && s[i].0.spec_key() == addr.spec_key() {
            assert(seq![s[0]] + t.update(i - 1, (addr, name)) =~= s.update(i, (addr, name)));
        } else {
            assert(seq![s[0]] + (t.subrange(0, i - 1) + seq![(addr, name)] + t.subrange(
                i - 1,
                t.len() as int,
            )) =~= s.subrange(0, i) + seq![(addr, name)] + s.subrange(i, s.len() as int));
        }
    }
}

impl Machine {
    /// The device records as their mathematical models, in storage order.
    pub open spec fn devices_model(self) -> Seq<DeviceModel> {
        self.devices@.map_values(|d: PciDevice| d@)
    }

    /// The slot table as address and name sequences, in storage order.
    pub open spec fn slots_model(self) -> Seq<(PciAddr, Seq<u8>)> {
        self.dmi_slots@.map_values(|p: (PciAddr, Vec<u8>)| (p.0, p.1@))
    }

    /// Both collections strictly sorted by address key.
    pub open spec fn wf(self) -> bool {
        devices_sorted(self.devices_model()) && slots_sorted(self.slots_model())
    }

    /// An empty machine.
    pub fn new() -> (r: Machine)
        ensures
            r.wf(),
            r.devices_model() == Seq::<DeviceModel>::empty(),
            r.slots_model() == Seq::<(PciAddr, Seq<u8>)>::empty(),
    {
        let r = Machine { devices: Vec::new(), dmi_slots: Vec::new() };
        proof {
            assert(r.devices_model() =~= Seq::<DeviceModel>::empty());
            assert(r.slots_model() =~= Seq::<(PciAddr, Seq<u8>)>::empty());
        }
        r
    }

    /// Files a device record under its address, replacing any record already
    /// there.
    pub fn insert_device(&mut self, dev: PciDevice)
        requires
            old(self).wf(),
        ensures
            final(self).wf(),
            final(self).devices_model() == spec_insert_device(old(self).devices_model(), dev@),
            final(self).slots_model() == old(self).slots_model(),
    {
        let key = dev.addr.key();
        let mut i: usize = 0;
        loop
            invariant
                *self == *old(self),
                i <= self.devices@.len(),
                forall|j: int|
                    0 <= j < i ==> self.devices_model()[j].addr.spec_key() < key as int,
                key == dev.addr.spec_key(),
            ensures
                *self == *old(self),
                i <= self.devices@.len(),
                forall|j: int|
                    0 <= j < i ==> self.devices_model()[j].addr.spec_key() < key as int,
                i < self.devices@.len() ==> self.devices_model()[i as int].addr.spec_key()
                    >= key as int,
            decreases self.devices@.len() - i,
        {
            if i >= self.devices.len() {
                break;
            }
            if self.devices[i].addr.key() >= key {
                proof {
                    assert(self.devices_model()[i as int].addr.spec_key() >= key as int);
                }
                break;
            }
            i += 1;
        }
        let ghost olds = self.devices_model();
        proof {
            lemma_insert_device_at(olds, dev@, i as int);
        }
        if i < self.devices.len() && self.devices[i].addr.key() == key {
            self.devices[i] = dev;
            proof {
                assert(self.devices_model() =~= olds.update(i as int, dev@));
            }
        } else {
            self.devices.insert(i, dev);
            proof {
                assert(self.devices_model() =~= olds.subrange(0, i as int) + seq![dev@]
                    + olds.subrange(i as int, olds.len() as int));
            }
        }
        proof {
            lemma_insert_device_sorted(olds, dev@);
            assert(self.slots_model() =~= old(self).slots_model());
        }
    }

    /// Files a slot name under its address, replacing any name already
    /// there.
    pub fn insert_slot(&mut self, addr: PciAddr, name: Vec<u8>)
        requires
            old(self).wf(),
        ensures
            final(self).wf(),
            final(self).slots_model() == spec_insert_slot(old(self).slots_model(), addr, name@),
            final(self).devices_model() == old(self).devices_model(),
    {
        let key = addr.key();
        let mut i: usize = 0;
        loop
            invariant
                *self == *old(self),
                i <= self.dmi_slots@.len(),
                forall|j: int| 0 <= j < i ==> self.slots_model()[j].0.spec_key() < key as int,
                key == addr.spec_key(),
            ensures
                *self == *old(self),
                i <= self.dmi_slots@.len(),
                forall|j: int| 0 <= j < i ==> self.slots_model()[j].0.spec_key() < key as int,
                i < self.dmi_slots@.len() ==> self.slots_model()[i as int].0.spec_key()
                    >= key as int,
            decreases self.dmi_slots@.len() - i,
        {
            if i >= self.dmi_slots.len() {
                break;
            }
            if self.dmi_slots[i].0.key() >= key {
                proof {
                    assert(self.slots_model()[i as int].0.spec_key() >= key as int);
                }
                break;
            }
            i += 1;
        }
        let ghost olds = self.slots_model();
        proof {
            lemma_insert_slot_at(olds, addr, name@, i as int);
        }
        if i < self.dmi_slots.len() && self.dmi_slots[i].0.key() == key {
            self.dmi_slots[i] = (addr, name);
            proof {
                assert(self.slots_model() =~= olds.update(i as int, (addr, name@)));
            }
        } else {
            self.dmi_slots.insert(i, (addr, name));
            proof {
                assert(self.slots_model() =~= olds.subrange(0, i as int) + seq![(addr, name@)]
                    + olds.subrange(i as int, olds.len() as int));
            }
        }
        proof {
            lemma_insert_slot_sorted(olds, addr, name@);
            assert(self.devices_model() =~= old(self).devices_model());
        }
    }
}

proof fn lemma_insert_device_sorted(s: Seq<DeviceModel>, dev: DeviceModel)
    requires
        devices_sorted(s),
    ensures
        devices_sorted(spec_insert_device(s, dev)),
    decreases s.len(),
{
    if s.len() > 0 && dev.addr.spec_key() > s[0].addr.spec_key() {
        assert(devices_sorted(s.drop_first()));
        lemma_insert_device_sorted(s.drop_first(), dev);
        let r = seq![s[0]] + spec_insert_device(s.drop_first(), dev);
        lemma_insert_device_keys(s.drop_first(), dev);
        assert forall|i: int, j: int| 0 <= i < j < r.len() implies r[i].addr.spec_key()
            < r[j].addr.spec_key() by {
            if i > 0 {
                assert(r[i] == spec_insert_device(s.drop_first(), dev)[i - 1]);
            }
        }
    }
}

/// Every key in an insertion result is the new key or one of the old keys.
proof fn lemma_insert_device_keys(s: Seq<DeviceModel>, dev: DeviceModel)
    ensures
        forall|k: int|
            0 <= k < spec_insert_device(s, dev).len() ==> (#[trigger] spec_insert_device(
                s,
                dev,
            )[k] == dev || s.contains(spec_insert_device(s, dev)[k])),
    decreases s.len(),
{
    if s.len() > 0 && dev.addr.spec_key() > s[0].addr.spec_key() {
        lemma_insert_device_keys(s.drop_first(), dev);
        assert forall|k: int| 0 <= k < spec_insert_device(s, dev).len() implies (
        #[trigger] spec_insert_device(s, dev)[k] == dev || s.contains(
            spec_insert_device(s, dev)[k],
        )) by {
            if k > 0 {
                let e = spec_insert_device(s.drop_first(), dev)[k - 1];
                assert(spec_insert_device(s, dev)[k] == e);
                if e != dev {
                    let m = choose|m: int|
                        0 <= m < s.drop_first().len() && s.drop_first()[m] == e;
                    assert(s[m + 1] == e);
                }
            }
        }
    } else {
        assert forall|k: int| 0 <= k < spec_insert_device(s, dev).len() implies (
        #[trigger] spec_insert_device(s, dev)[k] == dev || s.contains(
            spec_insert_device(s, dev)[k],
        )) by {
            if k > 0 {
                if s.len() > 0 && dev.addr.spec_key() == s[0].addr.spec_key() {
                    assert(spec_insert_device(s, dev)[k] == s[k]);
                } else if s.len() > 0 {
                    assert(spec_insert_device(s, dev)[k] == s[k - 1]);
                }
            }
        }
    }
}

proof fn lemma_insert_slot_sorted(s: Seq<(PciAddr, Seq<u8>)>, addr: PciAddr, name: Seq<u8>)
    requires
        slots_sorted(s),
    ensures
        slots_sorted(spec_insert_slot(s, addr, name)),
    decreases s.len(),
{
    if s.len() > 0 && addr.spec_key() > s[0].0.spec_key() {
        assert(slots_sorted(s.drop_first()));
        lemma_insert_slot_sorted(s.drop_first(), addr, name);
        let r = seq![s[0]] + spec_insert_slot(s.drop_first(), addr, name);
        lemma_insert_slot_keys(s.drop_first(), addr, name);
        assert forall|i: int, j: int| 0 <= i < j < r.len() implies r[i].0.spec_key()
            < r[j].0.spec_key() by {
            if i > 0 {
                assert(r[i] == spec_insert_slot(s.drop_first(), addr, name)[i - 1]);
            }
        }
    }
}

proof fn lemma_insert_slot_keys(s: Seq<(PciAddr, Seq<u8>)>, addr: PciAddr, name: Seq<u8>)
    ensures
        forall|k: int|
            0 <= k < spec_insert_slot(s, addr, name).len() ==> (#[trigger] spec_insert_slot(
                s,
                addr,
                name,
            )[k] == (addr, name) || s.contains(spec_insert_slot(s, addr, name)[k])),
    decreases s.len(),
{
    if s.len() > 0 && addr.spec_key() > s[0].0.spec_key() {
        lemma_insert_slot_keys(s.drop_first(), addr, name);
        assert forall|k: int| 0 <= k < spec_insert_slot(s, addr, name).len() implies (
        #[trigger] spec_insert_slot(s, addr, name)[k] == (addr, name) || s.contains(
            spec_insert_slot(s, addr, name)[k],
        )) by {
            if k > 0 {
                let e = spec_insert_slot(s.drop_first(), addr, name)[k - 1];
                assert(spec_insert_slot(s, addr, name)[k] == e);
                if e != (addr, name) {
                    let m = choose|m: int|
                        0 <= m < s.drop_first().len() && s.drop_first()[m] == e;
                    assert(s[m + 1] == e);
                }
            }
        }
    } else {
        assert forall|k: int| 0 <= k < spec_insert_slot(s, addr, name).len() implies (
        #[trigger] spec_insert_slot(s, addr, name)[k] == (addr, name) || s.contains(
            spec_insert_slot(s, addr, name)[k],
        )) by {
            if k > 0 {
                if s.len() > 0 && addr.spec_key() == s[0].0.spec_key() {
                    assert(spec_insert_slot(s, addr, name)[k] == s[k]);
                } else if s.len() > 0 {
                    assert(spec_insert_slot(s, addr, name)[k] == s[k - 1]);
                }
            }
        }
    }
}

/// The first record with the given address key.
pub open spec fn spec_find_device(s: Seq<DeviceModel>, key: int) -> Option<DeviceModel>
    decreases s.len(),
{
    if s.len() == 0 {
        None
    } else if s[0].addr.spec_key() == key {
        Some(s[0])
    } else {
        spec_find_device(s.drop_first(), key)
    }
}

/// The addresses of all records on the given domain and bus, in storage
/// order.
pub open spec fn spec_bus_devices(s: Seq<DeviceModel>, domain: u16, bus: u8) -> Seq<PciAddr>
    decreases s.len(),
{
    if s.len() == 0 {
        Seq::<PciAddr>::empty()
    } else {
        spec_bus_devices(s.drop_last(), domain, bus) + if s.last().addr.domain == domain
            && s.last().addr.bus == bus {
            seq![s.last().addr]
        } else {
            Seq::<PciAddr>::empty()
        }
    }
}

impl Machine {
    /// The position of the record filed under `addr`, if one is.
    pub fn device_index(&self, addr: PciAddr) -> (r: Option<usize>)
        ensures
            match r {
                Some(i) => i < self.devices@.len() && spec_find_device(
                    self.devices_model(),
                    addr.spec_key(),
                ) == Some(self.devices_model()[i as int]),
                None => spec_find_device(self.devices_model(), addr.spec_key()) is None,
            },
    {
        let key = addr.key();
        let ghost s = self.devices_model();
        let mut i: usize = 0;
        proof {
            assert(s.subrange(0, s.len() as int) =~= s);
        }
        loop
            invariant
                s == self.devices_model(),
                key == addr.spec_key(),
                i <= s.len(),
                spec_find_device(s, key as int) == spec_find_device(
                    s.subrange(i as int, s.len() as int),
                    key as int,
                ),
            decreases s.len() - i,
        {
            if i >= self.devices.len() {
                proof {
                    assert(s.subrange(s.len() as int, s.len() as int) =~= Seq::<
                        DeviceModel,
                    >::empty());
                    assert(spec_find_device(Seq::<DeviceModel>::empty(), key as int) is None);
                }
                return None;
            }
            let ghost suf = s.subrange(i as int, s.len() as int);
            proof {
                assert(suf[0] == s[i as int]);
            }
            if self.devices[i].addr.key() == key {
                return Some(i);
            }
            proof {
                assert(suf.drop_first() =~= s.subrange(i + 1, s.len() as int));
            }
            i += 1;
        }
    }

    /// All device addresses on the given domain and bus, in address order.
    pub fn bus_devices(&self, domain: u16, bus: u8) -> (r: Vec<PciAddr>)
        ensures
            r@ == spec_bus_devices(self.devices_model(), domain, bus),
    {
        let ghost s = self.devices_model();
        let mut out: Vec<PciAddr> = Vec::new();
        let mut i: usize = 0;
        proof {
            assert(s.subrange(0, 0) =~= Seq::<DeviceModel>::empty());
            assert(out@ =~= spec_bus_devices(s.subrange(0, 0), domain, bus));
        }
        while i < self.devices.len()
            invariant
                s == self.devices_model(),
                i <= s.len(),
                out@ == spec_bus_devices(s.subrange(0, i as int), domain, bus),
            decreases s.len() - i,
        {
            let ghost pre = s.subrange(0, i as int);
            let a = self.devices[i].addr;
            if a.domain() == domain && a.bus() == bus {
                out.push(a);
            }
            proof {
                assert(s.subrange(0, i + 1).drop_last() =~= pre);
                assert(s.subrange(0, i + 1).last() == s[i as int]);
                if s[i as int].addr.domain == domain && s[i as int].addr.bus == bus {
                    assert(out@ =~= spec_bus_devices(pre, domain, bus) + seq![s[i as int].addr]);
                } else {
                    assert(out@ =~= spec_bus_devices(pre, domain, bus) + Seq::<
                        PciAddr,
                    >::empty());
                }
            }
            i += 1;
        }
        proof {
            assert(s.subrange(0, s.len() as int) =~= s);
        }
        out
    }
}

/// A slot bus-address field stands at `i`: `Bus Address: ` followed by a
/// full address `dddd:bb:dd.f`.
pub open spec fn busaddr_at(d: Seq<u8>, i: int) -> bool {
    let m = "Bus Address: ".spec_bytes();
    let q = i + m.len();
    &&& matches_at(d, m, i)
    &&& q + 12 <= d.len()
    &&& all_hex(d.subrange(q, q + 4))
    &&& d[q + 4] == 58
    &&& all_hex(d.subrange(q + 5, q + 7))
    &&& d[q + 7] == 58
    &&& all_hex(d.subrange(q + 8, q + 10))
    &&& d[q + 10] == 46
    &&& 48 <= d[q + 11] <= 55
}

pub open spec fn first_busaddr_at(d: Seq<u8>, from: int) -> Option<int>
    decreases d.len() - from + 1,
{
    if from < 0 || from > d.len() {
        None
    } else if busaddr_at(d, from) {
        Some(from)
    } else {
        first_busaddr_at(d, from + 1)
    }
}

/// A firmware inventory block that names a physical slot: it carries the
/// system-slot record marker, then a designation line, then a slot
/// bus-address whose device number fits five bits. The slot name is the rest
/// of the designation line; the address is read as the device addresses are.
/// Each field is taken at its first occurrence after the one before it; a
/// system-slot block carries one of each, so no later occurrence competes.
pub open spec fn spec_dmi_slot(d: Seq<u8>) -> Option<(PciAddr, Seq<u8>)> {
    let m1 = ", DMI type 9, ".spec_bytes();
    let m2 = "Designation: ".spec_bytes();
    let m3 = "Bus Address: ".spec_bytes();
    match first_match_from(d, m1, 0) {
        None => None,
        Some(i1) => match first_match_from(d, m2, i1 + m1.len()) {
            None => None,
            Some(i2) => {
                let ns = i2 + m2.len();
                let ne = crate::pci_device::spec_line_end(d, ns);
                if ne >= d.len() {
                    None
                } else {
                    match first_busaddr_at(d, ne + 1) {
                        None => None,
                        Some(i3) => {
                            let q = i3 + m3.len();
                            let device = hex_value_of(d.subrange(q + 8, q + 10));
                            if device > 31 {
                                None
                            } else {
                                Some(
                                    (
                                        PciAddr {
                                            domain: hex_value_of(d.subrange(q, q + 4)) as u16,
                                            bus: hex_value_of(d.subrange(q + 5, q + 7)) as u8,
                                            devfn: (device * 8 + (d[q + 11] - 48)) as u8,
                                        },
                                        d.subrange(ns, ne),
                                    ),
                                )
                            }
                        },
                    }
                }
            },
        },
    }
}

/// Reads a firmware inventory block; the slot name and address when the
/// block names a physical slot.
pub fn parse_dmi_slot(d: &[u8]) -> (r: Option<(PciAddr, Vec<u8>)>)
    ensures
        match r {
            Some(p) => spec_dmi_slot(d@) == Some((p.0, p.1@)),
            None => spec_dmi_slot(d@) is None,
        },
{
    let m1 = ", DMI type 9, ".as_bytes();
    let m2 = "Designation: ".as_bytes();
    let m3 = "Bus Address: ".as_bytes();
    let i1 = match crate::text::find_from(d, m1, 0) {
        Some(i) => i,
        None => {
            return None;
        },
    };
    proof {
        assert(i1 + m1.len() <= d.len());
    }
    let i2 = match crate::text::find_from(d, m2, i1 + m1.len()) {
        Some(i) => i,
        None => {
            return None;
        },
    };
    proof {
        assert(i2 + m2.len() <= d.len());
    }
    let ns = i2 + m2.len();
    let ne = crate::pci_device::find_line_end(d, ns);
    if ne >= d.len() {
        return None;
    }
    let mut from: usize = ne + 1;
    while from < d.len()
        invariant
            m1@ == ", DMI type 9, ".spec_bytes(),
            m2@ == "Designation: ".spec_bytes(),
            m3@ == "Bus Address: ".spec_bytes(),
            first_match_from(d@, ", DMI type 9, ".spec_bytes(), 0) == Some(i1 as int),
            first_match_from(d@, "Designation: ".spec_bytes(), i1 + m1@.len() as int) == Some(
                i2 as int,
            ),
            ns == i2 + m2@.len(),
            ne == crate::pci_device::spec_line_end(d@, ns as int),
            ns <= ne < d@.len(),
            ne + 1 <= from <= d@.len(),
            first_busaddr_at(d@, ne + 1) == first_busaddr_at(d@, from as int),
        decreases d@.len() - from,
    {
        let mut ok = false;
        if match_at(d, m3, from) {
            let q = from + m3.len();
            if d.len() - q >= 12 {
                if d[q + 4] == 58 && d[q + 7] == 58 && d[q + 10] == 46 && 48 <= d[q + 11] && d[q
                    + 11] <= 55 {
                    match (read_hex(d, q, 4), read_hex(d, q + 5, 2), read_hex(d, q + 8, 2)) {
                        (Some(_), Some(_), Some(_)) => {
                            ok = true;
                        },
                        _ => {},
                    }
                }
            }
        }
        if ok {
            proof {
                assert(busaddr_at(d@, from as int));
                assert(first_busaddr_at(d@, from as int) == Some(from as int));
            }
            let q = from + m3.len();
            proof {
                lemma_pow16_vals();
                lemma_hex_value_bound(d@.subrange(q as int, q + 4));
                lemma_hex_value_bound(d@.subrange(q + 5, q + 7));
                lemma_hex_value_bound(d@.subrange(q + 8, q + 10));
            }
            let domain = match read_hex(d, q, 4) {
                Some(v) => v,
                None => {
                    proof {
                        assert(false);
                    }
                    0
                },
            };
            let bus = match read_hex(d, q + 5, 2) {
                Some(v) => v,
                None => {
                    proof {
                        assert(false);
                    }
                    0
                },
            };
            let device = match read_hex(d, q + 8, 2) {
                Some(v) => v,
                None => {
                    proof {
                        assert(false);
                    }
                    0
                },
            };
            if device > 31 {
                return None;
            }
            let addr = PciAddr::new(domain as u16, bus as u8, device as u8, d[q + 11] - 48);
            let name = vstd::slice::slice_to_vec(vstd::slice::slice_subrange(d, ns, ne));
            return Some((addr, name));
        }
        proof {
            assert(!busaddr_at(d@, from as int));
            assert(first_busaddr_at(d@, from as int) == first_busaddr_at(d@, from + 1));
        }
        from += 1;
    }
    proof {
        assert(!busaddr_at(d@, d@.len() as int));
        assert(first_busaddr_at(d@, d@.len() as int + 1) is None);
        assert(first_busaddr_at(d@, d@.len() as int) is None);
    }
    None
}

/// The blocks of `d` from `start` on: `d` is cut at every blank line (two
/// consecutive line breaks), left to right.
pub open spec fn spec_sections_from(d: Seq<u8>, start: int) -> Seq<Seq<u8>>
    decreases d.len() - start + 1,
    via spec_sections_from_dec
{
    match first_match_from(d, seq![10u8, 10u8], start) {
        None => seq![d.subrange(start, d.len() as int)],
        Some(i) => seq![d.subrange(start, i)] + spec_sections_from(d, i + 2),
    }
}

/// Where a match is found, it lies at or after the start and fits in the
/// text.
pub proof fn lemma_first_match_in_range(h: Seq<u8>, p: Seq<u8>, from: int)
    ensures
        match first_match_from(h, p, from) {
            Some(i) => from <= i && i + p.len() <= h.len() && matches_at(h, p, i),
            None => true,
        },
    decreases h.len() - from + 1,
{
    if from >= 0 && from + p.len() <= h.len() && !matches_at(h, p, from) {
        lemma_first_match_in_range(h, p, from + 1);
    }
}

#[via_fn]
proof fn spec_sections_from_dec(d: Seq<u8>, start: int) {
    lemma_first_match_in_range(d, seq![10u8, 10u8], start);
}

/// What one block contributes: a matching slot block extends the slot
/// table, a matching device block the device records; a block may be
/// neither, and by the source formats none is both.
pub open spec fn spec_absorb_section(
    devs: Seq<DeviceModel>,
    slots: Seq<(PciAddr, Seq<u8>)>,
    sec: Seq<u8>,
) -> (Seq<DeviceModel>, Seq<(PciAddr, Seq<u8>)>) {
    let slots2 = match spec_dmi_slot(sec) {
        Some(p) => spec_insert_slot(slots, p.0, p.1),
        None => slots,
    };
    let devs2 = if crate::pci_device::spec_parse_ok(sec) {
        let f = crate::pci_device::spec_addr_fields(sec).unwrap();
        let ids = crate::pci_device::spec_ids(sec, f.4).unwrap();
        spec_insert_device(
            devs,
            DeviceModel {
                addr: PciAddr { domain: f.0, bus: f.1, devfn: (f.2 * 8 + f.3) as u8 },
                vendor_id: ids.0,
                device_id: ids.1,
                desc: sec,
            },
        )
    } else {
        devs
    };
    (devs2, slots2)
}

/// The collections after absorbing every block, in order.
pub open spec fn spec_absorb_sections(
    devs: Seq<DeviceModel>,
    slots: Seq<(PciAddr, Seq<u8>)>,
    secs: Seq<Seq<u8>>,
) -> (Seq<DeviceModel>, Seq<(PciAddr, Seq<u8>)>)
    decreases secs.len(),
{
    if secs.len() == 0 {
        (devs, slots)
    } else {
        let p = spec_absorb_sections(devs, slots, secs.drop_last());
        spec_absorb_section(p.0, p.1, secs.last())
    }
}

impl Machine {
    /// Reads a whole report: the input is cut at blank lines and every block
    /// feeds the slot table or the device records, later blocks replacing
    /// earlier ones at the same address.
    pub fn parse(&mut self, data: &[u8])
        requires
            old(self).wf(),
        ensures
            final(self).wf(),
            (final(self).devices_model(), final(self).slots_model()) == spec_absorb_sections(
                old(self).devices_model(),
                old(self).slots_model(),
                spec_sections_from(data@, 0),
            ),
    {
        let mut sep: Vec<u8> = Vec::new();
        sep.push(10);
        sep.push(10);
        proof {
            assert(sep@ =~= seq![10u8, 10u8]);
        }
        let ghost secs = spec_sections_from(data@, 0);
        let ghost mut done: Seq<Seq<u8>> = Seq::empty();
        let mut start: usize = 0;
        loop
            invariant
                sep@ == seq![10u8, 10u8],
                start <= data@.len(),
                self.wf(),
                secs == spec_sections_from(data@, 0),
                secs == done + spec_sections_from(data@, start as int),
                (self.devices_model(), self.slots_model()) == spec_absorb_sections(
                    old(self).devices_model(),
                    old(self).slots_model(),
                    done,
                ),
            decreases data@.len() - start,
        {
            match crate::text::find_from(data, sep.as_slice(), start) {
                Some(i) => {
                    proof {
                        lemma_first_match_in_range(data@, sep@, start as int);
                        assert(i + 2 <= data.len());
                    }
                    let sec = vstd::slice::slice_subrange(data, start, i);
                    self.absorb(sec);
                    proof {
                        let piece = data@.subrange(start as int, i as int);
                        assert((done + seq![piece]).drop_last() =~= done);
                        assert((done + seq![piece]).last() == piece);
                        assert(spec_absorb_sections(
                            old(self).devices_model(),
                            old(self).slots_model(),
                            done + seq![piece],
                        ) == (self.devices_model(), self.slots_model()));
                        assert(done + (seq![piece] + spec_sections_from(data@, i + 2)) =~= (done
                            + seq![piece]) + spec_sections_from(data@, i + 2));
                        done = done + seq![piece];
                    }
                    start = i + 2;
                },
                None => {
                    let sec = vstd::slice::slice_subrange(data, start, data.len());
                    self.absorb(sec);
                    proof {
                        let piece = data@.subrange(start as int, data@.len() as int);
                        assert((done + seq![piece]).drop_last() =~= done);
                        assert((done + seq![piece]).last() == piece);
                        assert(done + seq![piece] =~= secs);
                    }
                    return;
                },
            }
        }
    }

    /// Absorbs one block into the collections.
    fn absorb(&mut self, sec: &[u8])
        requires
            old(self).wf(),
        ensures
            final(self).wf(),
            (final(self).devices_model(), final(self).slots_model()) == spec_absorb_section(
                old(self).devices_model(),
                old(self).slots_model(),
                sec@,
            ),
    {
        match parse_dmi_slot(sec) {
            Some((addr, name)) => {
                self.insert_slot(addr, name);
            },
            None => {},
        }
        match PciDevice::parse(sec) {
            Some(dev) => {
                proof {
                    let f = crate::pci_device::spec_addr_fields(sec@).unwrap();
                    let ids = crate::pci_device::spec_ids(sec@, f.4).unwrap();
                    assert(dev@ == DeviceModel {
                        addr: PciAddr { domain: f.0, bus: f.1, devfn: (f.2 * 8 + f.3) as u8 },
                        vendor_id: ids.0,
                        device_id: ids.1,
                        desc: sec@,
                    });
                }
                self.insert_device(dev);
            },
            None => {},
        }
    }
}

impl Machine {
    /// The record filed under an address that is known to be filed.
    pub fn lookup_device(&self, a: PciAddr) -> (r: &PciDevice)
        requires
            spec_find_device(self.devices_model(), a.spec_key()) is Some,
        ensures
            r@ == spec_find_device(self.devices_model(), a.spec_key()).unwrap(),
    {
        match self.device_index(a) {
            Some(i) => &self.devices[i],
            None => {
                proof {
                    assert(false);
                }
                vstd::pervasive::unreached()
            },
        }
    }
}

/// Every address in the sequence is the address of a filed record.
pub open spec fn all_found(devs: Seq<DeviceModel>, addrs: Seq<PciAddr>) -> bool {
    forall|k: int|
        0 <= k < addrs.len() ==> spec_find_device(
            devs,
            (#[trigger] addrs[k]).spec_key(),
        ) is Some
}

/// A key some record carries is always found.
pub proof fn lemma_find_some(devs: Seq<DeviceModel>, key: int)
    requires
        exists|i: int| 0 <= i < devs.len() && (#[trigger] devs[i]).addr.spec_key() == key,
    ensures
        spec_find_device(devs, key) is Some,
    decreases devs.len(),
{
    if devs.len() > 0 && devs[0].addr.spec_key() != key {
        let i = choose|i: int| 0 <= i < devs.len() && (#[trigger] devs[i]).addr.spec_key() == key;
        assert(devs.drop_first()[i - 1] == devs[i]);
        lemma_find_some(devs.drop_first(), key);
    }
}

/// Every address a bus lists belongs to some record.
pub proof fn lemma_bus_devices_member(devs: Seq<DeviceModel>, domain: u16, bus: u8, k: int)
    requires
        0 <= k < spec_bus_devices(devs, domain, bus).len(),
    ensures
        exists|i: int|
            0 <= i < devs.len() && (#[trigger] devs[i]).addr == spec_bus_devices(
                devs,
                domain,
                bus,
            )[k],
    decreases devs.len(),
{
    if devs.len() > 0 {
        let pre = spec_bus_devices(devs.drop_last(), domain, bus);
        if k < pre.len() {
            lemma_bus_devices_member(devs.drop_last(), domain, bus, k);
            let i = choose|i: int|
                0 <= i < devs.drop_last().len() && (#[trigger] devs.drop_last()[i]).addr
                    == pre[k];
            assert(devs[i].addr == spec_bus_devices(devs, domain, bus)[k]);
        } else {
            assert(devs[devs.len() - 1].addr == spec_bus_devices(devs, domain, bus)[k]);
        }
    }
}

/// Every address a bus lists is found among the records.
pub proof fn lemma_bus_devices_found(devs: Seq<DeviceModel>, domain: u16, bus: u8)
    ensures
        all_found(devs, spec_bus_devices(devs, domain, bus)),
{
    let addrs = spec_bus_devices(devs, domain, bus);
    assert forall|k: int| 0 <= k < addrs.len() implies spec_find_device(
        devs,
        (#[trigger] addrs[k]).spec_key(),
    ) is Some by {
        lemma_bus_devices_member(devs, domain, bus, k);
        let i = choose|i: int| 0 <= i < devs.len() && (#[trigger] devs[i]).addr == addrs[k];
        assert(devs[i].addr.spec_key() == addrs[k].spec_key());
        lemma_find_some(devs, addrs[k].spec_key());
    }
}

/// Some port on the given bus is filed with a serial number different from
/// `sn`.
pub open spec fn spec_conflicting_downstream(
    devs: Seq<DeviceModel>,
    domain: u16,
    bus: u8,
    sn: u64,
) -> bool {
    exists|k: int|
        #![trigger spec_bus_devices(devs, domain, bus)[k]]
        0 <= k < spec_bus_devices(devs, domain, bus).len() && (match spec_find_device(
            devs,
            spec_bus_devices(devs, domain, bus)[k].spec_key(),
        ) {
            Some(dm) => match crate::pci_device::spec_serial_number(dm.desc) {
                Some(x) => x != sn,
                None => false,
            },
            None => false,
        })
}

/// The identity under which a device is clustered: its serial number as
/// sixteen hexadecimal digits, unless there is none — then its address text
/// — or unless it is the upstream port of a switch one of whose downstream
/// ports reports a different serial number. Such a serial number is not
/// trusted (a known firmware bug pattern) and the address text stands in.
/// No value only for an upstream port that states no downstream bus: its
/// description is malformed.
pub open spec fn spec_unique_id(devs: Seq<DeviceModel>, dev: DeviceModel) -> Option<Seq<u8>> {
    match crate::pci_device::spec_serial_number(dev.desc) {
        None => Some(dev.addr.spec_text()),
        Some(sn) => if crate::text::contains_seq(
            dev.desc,
            crate::pci_device::upstream_port_marker(),
        ) {
            match crate::pci_device::spec_secondary_bus(dev.desc) {
                None => None,
                Some(sb) => if spec_conflicting_downstream(devs, dev.addr.domain, sb, sn) {
                    Some(dev.addr.spec_text())
                } else {
                    Some(crate::text::hex_seq(sn as nat, 16))
                },
            }
        } else {
            Some(crate::text::hex_seq(sn as nat, 16))
        },
    }
}

impl Machine {
    /// The clustering identity of a device; no value only for an upstream
    /// port whose description states no downstream bus.
    pub fn pci_device_unique_id(&self, dev: &PciDevice) -> (r: Option<Vec<u8>>)
        ensures
            match r {
                Some(v) => spec_unique_id(self.devices_model(), dev@) == Some(v@),
                None => spec_unique_id(self.devices_model(), dev@) is None,
            },
    {
        let sn = match dev.serial_number() {
            None => {
                return Some(dev.addr.format());
            },
            Some(sn) => sn,
        };
        if dev.is_upstream_port() {
            let sb = match dev.secondary_bus() {
                None => {
                    return None;
                },
                Some(sb) => sb,
            };
            let ports = self.bus_devices(dev.addr.domain(), sb);
            let ghost devs = self.devices_model();
            let ghost paddrs = spec_bus_devices(devs, dev@.addr.domain, sb);
            let mut k: usize = 0;
            while k < ports.len()
                invariant
                    devs == self.devices_model(),
                    paddrs == spec_bus_devices(devs, dev@.addr.domain, sb),
                    ports@ == paddrs,
                    k <= paddrs.len(),
                    crate::pci_device::spec_serial_number(dev@.desc) == Some(sn),
                    crate::text::contains_seq(
                        dev@.desc,
                        crate::pci_device::upstream_port_marker(),
                    ),
                    crate::pci_device::spec_secondary_bus(dev@.desc) == Some(sb),
                    forall|j: int|
                        #![trigger paddrs[j]]
                        0 <= j < k ==> !(match spec_find_device(
                            devs,
                            paddrs[j].spec_key(),
                        ) {
                            Some(dm) => match crate::pci_device::spec_serial_number(dm.desc) {
                                Some(x) => x != sn,
                                None => false,
                            },
                            None => false,
                        }),
                decreases paddrs.len() - k,
            {
                match self.device_index(ports[k]) {
                    Some(idx) => {
                        match self.devices[idx].serial_number() {
                            Some(x) => {
                                if x != sn {
                                    proof {
                                        assert(paddrs[k as int] == ports@[k as int]);
                                        assert(spec_conflicting_downstream(
                                            devs,
                                            dev@.addr.domain,
                                            sb,
                                            sn,
                                        ));
                                    }
                                    return Some(dev.addr.format());
                                }
                            },
                            None => {},
                        }
                    },
                    None => {},
                }
                k += 1;
            }
            proof {
                assert(!spec_conflicting_downstream(devs, dev@.addr.domain, sb, sn));
            }
        }
        let mut out: Vec<u8> = Vec::new();
        proof {
            crate::text::lemma_pow16_vals();
        }
        crate::text::emit_hex(&mut out, sn, 16);
        proof {
            assert(out@ =~= crate::text::hex_seq(sn as nat, 16));
        }
        Some(out)
    }
}

} // verus!
