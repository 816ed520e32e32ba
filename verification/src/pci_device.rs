//! One PCI function found in the enumeration dump: its address, its
//! identifiers, and the description block the fields are derived from.
//!
//! Every derived field is a function of the retained description bytes; each
//! accessor's contract states exactly which byte pattern it reads. Absent
//! patterns yield no value, never an error.

use vstd::prelude::*;
use vstd::string::StringSliceAdditionalSpecFns;

use crate::pci_addr::PciAddr;
use crate::link::{LnkCap, LnkSta};
use crate::text::{
    all_hex, contains_bytes, contains_seq, dec_run_end, dec_value_of, find_dec_run_end,
    hex_value_of, is_dec_digit, is_hex_digit, lemma_dec_run_end, lemma_hex_value_bound,
    lemma_pow16_vals, match_at, matches_at, pow16, read_hex,
};

verus! {

/// The capability phrase marking a root port.
pub open spec fn root_port_marker() -> Seq<u8> {
    " Express (v2) Root Port ".spec_bytes()
}

/// The capability phrase marking the upstream port of a switch.
pub open spec fn upstream_port_marker() -> Seq<u8> {
    " Express (v2) Upstream Port, ".spec_bytes()
}

/// The capability phrases marking an endpoint, current or legacy.
pub open spec fn endpoint_marker() -> Seq<u8> {
    " Express (v2) Endpoint, ".spec_bytes()
}

pub open spec fn legacy_endpoint_marker() -> Seq<u8> {
    " Express (v2) Legacy Endpoint, ".spec_bytes()
}

/// The capability phrase marking a bridge to a legacy PCI segment.
pub open spec fn pci_bridge_marker() -> Seq<u8> {
    " Express (v2) PCI-Express to PCI/PCI-X Bridge, ".spec_bytes()
}

/// One device record. The description block is retained and every derived
/// field is a function of it.
#[derive(Debug)]
pub struct PciDevice {
    pub addr: PciAddr,
    pub vendor_id: u16,
    pub device_id: u16,
    pub desc: Vec<u8>,
}

/// The mathematical content of a device record: its fields with the
/// description as a byte sequence.
pub ghost struct DeviceModel {
    pub addr: PciAddr,
    pub vendor_id: u16,
    pub device_id: u16,
    pub desc: Seq<u8>,
}

impl View for PciDevice {
    type V = DeviceModel;

    open spec fn view(&self) -> DeviceModel {
        DeviceModel {
            addr: self.addr,
            vendor_id: self.vendor_id,
            device_id: self.device_id,
            desc: self.desc@,
        }
    }
}

impl PciDevice {
    pub fn addr(&self) -> (r: PciAddr)
        ensures
            r == self.addr,
    {
        self.addr
    }

    pub fn vendor_id(&self) -> (r: u16)
        ensures
            r == self.vendor_id,
    {
        self.vendor_id
    }

    pub fn device_id(&self) -> (r: u16)
        ensures
            r == self.device_id,
    {
        self.device_id
    }

    pub open spec fn spec_is_root_port(self) -> bool {
        contains_seq(self.desc@, root_port_marker())
    }

    /// The description holds the root-port capability phrase.
    pub fn is_root_port(&self) -> (r: bool)
        ensures
            r == self.spec_is_root_port(),
    {
        contains_bytes(self.desc.as_slice(), " Express (v2) Root Port ".as_bytes())
    }

    pub open spec fn spec_is_upstream_port(self) -> bool {
        contains_seq(self.desc@, upstream_port_marker())
    }

    /// The description holds the upstream-port capability phrase.
    pub fn is_upstream_port(&self) -> (r: bool)
        ensures
            r == self.spec_is_upstream_port(),
    {
        contains_bytes(self.desc.as_slice(), " Express (v2) Upstream Port, ".as_bytes())
    }

    pub open spec fn spec_is_endpoint(self) -> bool {
        contains_seq(self.desc@, endpoint_marker()) || contains_seq(
            self.desc@,
            legacy_endpoint_marker(),
        )
    }

    /// The description holds the endpoint capability phrase, current or
    /// legacy.
    pub fn is_endpoint(&self) -> (r: bool)
        ensures
            r == self.spec_is_endpoint(),
    {
        contains_bytes(self.desc.as_slice(), " Express (v2) Endpoint, ".as_bytes())
            || contains_bytes(self.desc.as_slice(), " Express (v2) Legacy Endpoint, ".as_bytes())
    }

    pub open spec fn spec_is_pci_bridge(self) -> bool {
        contains_seq(self.desc@, pci_bridge_marker())
    }

    /// The description holds the capability phrase of a bridge to legacy PCI.
    pub fn is_pci_bridge(&self) -> (r: bool)
        ensures
            r == self.spec_is_pci_bridge(),
    {
        contains_bytes(
            self.desc.as_slice(),
            " Express (v2) PCI-Express to PCI/PCI-X Bridge, ".as_bytes(),
        )
    }
}

/// The bus-range phrase matches at `i`: `, secondary=` followed by two
/// hexadecimal digits and `, subordinate=`.
pub open spec fn secondary_bus_at(d: Seq<u8>, i: int) -> bool {
    let m = ", secondary=".spec_bytes();
    &&& matches_at(d, m, i)
    &&& i + m.len() + 2 <= d.len()
    &&& all_hex(d.subrange(i + m.len(), i + m.len() + 2))
    &&& matches_at(d, ", subordinate=".spec_bytes(), i + m.len() + 2)
}

/// Position of the leftmost full bus-range phrase, if any.
pub open spec fn first_secondary_bus_at(d: Seq<u8>, from: int) -> Option<int>
    decreases d.len() - from + 1,
{
    if from < 0 || from > d.len() {
        None
    } else if secondary_bus_at(d, from) {
        Some(from)
    } else {
        first_secondary_bus_at(d, from + 1)
    }
}

/// The bus number a bridge forwards to, when the description holds the full
/// bus-range phrase: the two hexadecimal digits after the leftmost
/// `, secondary=` that `, subordinate=` follows.
pub open spec fn spec_secondary_bus(d: Seq<u8>) -> Option<u8> {
    let m = ", secondary=".spec_bytes();
    match first_secondary_bus_at(d, 0) {
        None => None,
        Some(i) => Some(hex_value_of(d.subrange(i + m.len(), i + m.len() + 2)) as u8),
    }
}

impl PciDevice {
    /// The next bus number downstream of a bridge-like device; `None` when
    /// the description holds no full bus-range phrase.
    pub fn secondary_bus(&self) -> (r: Option<u8>)
        ensures
            r == spec_secondary_bus(self.desc@),
    {
        let d = self.desc.as_slice();
        let m1 = ", secondary=".as_bytes();
        let m2 = ", subordinate=".as_bytes();
        let mut from: usize = 0;
        while from < d.len()
            invariant
                d@ == self.desc@,
                m1@ == ", secondary=".spec_bytes(),
                m2@ == ", subordinate=".spec_bytes(),
                from <= d@.len(),
                first_secondary_bus_at(d@, 0) == first_secondary_bus_at(d@, from as int),
            decreases d@.len() - from,
        {
            let mut hit: Option<u64> = None;
            if match_at(d, m1, from) {
                let q = from + m1.len();
                if d.len() - q >= 2 {
                    match read_hex(d, q, 2) {
                        Some(v) => {
                            if match_at(d, m2, q + 2) {
                                hit = Some(v);
                            }
                        },
                        None => {},
                    }
                }
            }
            match hit {
                Some(v) => {
                    proof {
                        let ml = ", secondary=".spec_bytes().len();
                        assert(secondary_bus_at(d@, from as int));
                        assert(first_secondary_bus_at(d@, from as int) == Some(from as int));
                        lemma_hex_value_bound(d@.subrange(from + ml, from + ml + 2));
                        assert(pow16(2) == 256) by {
                            lemma_pow16_vals();
                        }
                    }
                    return Some(v as u8);
                },
                None => {
                    proof {
                        assert(!secondary_bus_at(d@, from as int));
                        assert(first_secondary_bus_at(d@, from as int) == first_secondary_bus_at(
                            d@,
                            from + 1,
                        ));
                    }
                },
            }
            from += 1;
        }
        proof {
            assert(!secondary_bus_at(d@, d@.len() as int));
            assert(first_secondary_bus_at(d@, d@.len() as int + 1) is None);
            assert(first_secondary_bus_at(d@, d@.len() as int) is None);
        }
        None
    }
}

/// The affinity phrase matches at `i`: `NUMA node: `, at least one decimal
/// digit, and a line break right after the digits; a run of more than
/// eight digits is not taken, so the value always fits.
pub open spec fn numa_at(d: Seq<u8>, i: int) -> bool {
    let q = i + "NUMA node: ".spec_bytes().len();
    &&& matches_at(d, "NUMA node: ".spec_bytes(), i)
    &&& ({
        let e = dec_run_end(d, q);
        &&& e > q
        &&& e - q <= 8
        &&& e < d.len()
        &&& d[e] == 10
    })
}

pub open spec fn first_numa_at(d: Seq<u8>, from: int) -> Option<int>
    decreases d.len() - from + 1,
{
    if from < 0 || from > d.len() {
        None
    } else if numa_at(d, from) {
        Some(from)
    } else {
        first_numa_at(d, from + 1)
    }
}

/// The node number of the leftmost affinity phrase: the decimal value of
/// its digits.
pub open spec fn spec_numa_node(d: Seq<u8>) -> Option<u64> {
    match first_numa_at(d, 0) {
        None => None,
        Some(i) => {
            let q = i + "NUMA node: ".spec_bytes().len();
            Some(dec_value_of(d.subrange(q, dec_run_end(d, q))) as u64)
        },
    }
}

impl PciDevice {
    /// The optional NUMA affinity hint.
    pub fn numa_node(&self) -> (r: Option<u64>)
        ensures
            r == spec_numa_node(self.desc@),
    {
        let d = self.desc.as_slice();
        let m = "NUMA node: ".as_bytes();
        let mut from: usize = 0;
        while from < d.len()
            invariant
                d@ == self.desc@,
                m@ == "NUMA node: ".spec_bytes(),
                from <= d@.len(),
                first_numa_at(d@, 0) == first_numa_at(d@, from as int),
            decreases d@.len() - from,
        {
            if match_at(d, m, from) {
                let q = from + m.len();
                let e = find_dec_run_end(d, q);
                if e > q && e - q <= 8 && e < d.len() && d[e] == 10 {
                    proof {
                        assert(numa_at(d@, from as int));
                        assert(first_numa_at(d@, from as int) == Some(from as int));
                        let digits = d@.subrange(q as int, e as int);
                        lemma_dec_run_end(d@, q as int);
                        crate::text::lemma_dec_value_bound(digits);
                        crate::text::lemma_pow10_mono(digits.len() as nat, 8);
                        crate::text::lemma_pow10_vals();
                    }
                    let v = match crate::text::read_dec(d, q, e - q) {
                        Some(v) => v,
                        None => {
                            proof {
                                assert(false);
                            }
                            0
                        },
                    };
                    return Some(v);
                }
            }
            proof {
                assert(!numa_at(d@, from as int));
                assert(first_numa_at(d@, from as int) == first_numa_at(d@, from + 1));
            }
            from += 1;
        }
        proof {
            assert(dec_run_end(d@, d@.len() + "NUMA node: ".spec_bytes().len() as int) == d@.len()
                + "NUMA node: ".spec_bytes().len());
            assert(!numa_at(d@, d@.len() as int));
            assert(first_numa_at(d@, d@.len() as int + 1) is None);
            assert(first_numa_at(d@, d@.len() as int) is None);
        }
        None
    }
}

/// A transfer-rate field at `q`: one to eight integer digits, optionally
/// followed by a dot and one tenths digit.
pub open spec fn speed_at(d: Seq<u8>, q: int) -> bool {
    let e = dec_run_end(d, q);
    e > q && e - q <= 8
}

/// The rate at `q` carries a tenths digit.
pub open spec fn speed_has_frac(d: Seq<u8>, q: int) -> bool {
    let e = dec_run_end(d, q);
    e < d.len() && d[e] == 46 && e + 1 < d.len() && is_dec_digit(d[e + 1])
}

/// First position after the rate field at `q`.
pub open spec fn speed_end(d: Seq<u8>, q: int) -> int {
    let e = dec_run_end(d, q);
    if speed_has_frac(d, q) {
        e + 2
    } else {
        e
    }
}

/// The rate at `q` in tenths: ten times the integer part plus the tenths
/// digit, zero when none is written.
pub open spec fn speed_tenths_at(d: Seq<u8>, q: int) -> nat {
    let e = dec_run_end(d, q);
    dec_value_of(d.subrange(q, e)) * 10 + if speed_has_frac(d, q) {
        (d[e + 1] - 48) as nat
    } else {
        0nat
    }
}

/// A lane-count field at `w`: one to three decimal digits whose value fits a
/// byte.
pub open spec fn width_at(d: Seq<u8>, w: int) -> bool {
    let e = dec_run_end(d, w);
    e > w && e - w <= 3 && dec_value_of(d.subrange(w, e)) <= 255
}

pub open spec fn width_value_at(d: Seq<u8>, w: int) -> nat {
    dec_value_of(d.subrange(w, dec_run_end(d, w)))
}

/// Reads the transfer-rate field at `q`, returning its value in tenths and
/// the position after it.
fn parse_speed(d: &[u8], q: usize) -> (r: Option<(u32, usize)>)
    requires
        q <= d@.len(),
    ensures
        match r {
            Some(te) => {
                &&& speed_at(d@, q as int)
                &&& te.0 == speed_tenths_at(d@, q as int)
                &&& te.1 == speed_end(d@, q as int)
                &&& q < te.1 <= d@.len()
            },
            None => !speed_at(d@, q as int),
        },
{
    let e = find_dec_run_end(d, q);
    if e == q || e - q > 8 {
        return None;
    }
    proof {
        lemma_dec_run_end(d@, q as int);
        let digits = d@.subrange(q as int, e as int);
        crate::text::lemma_dec_value_bound(digits);
        crate::text::lemma_pow10_vals();
        crate::text::lemma_pow10_mono(digits.len() as nat, 8);
    }
    let intval: u64 = match crate::text::read_dec(d, q, e - q) {
        Some(v) => v,
        None => {
            proof {
                assert(false);
            }
            0
        },
    };
    let mut tenth: u64 = 0;
    let mut end: usize = e;
    if e < d.len() && d[e] == 46 && e + 1 < d.len() {
        let b = d[e + 1];
        if 48 <= b && b <= 57 {
            tenth = (b - 48) as u64;
            end = e + 2;
        }
    }
    proof {
        assert(intval < 100000000);
        assert(speed_tenths_at(d@, q as int) == intval * 10 + tenth);
    }
    Some(((intval * 10 + tenth) as u32, end))
}

/// Reads the lane-count field at `w`, returning its value and the position
/// after its digits.
fn parse_width(d: &[u8], w: usize) -> (r: Option<(u8, usize)>)
    requires
        w <= d@.len(),
    ensures
        match r {
            Some(ve) => {
                &&& width_at(d@, w as int)
                &&& ve.0 == width_value_at(d@, w as int)
                &&& ve.1 == dec_run_end(d@, w as int)
                &&& w < ve.1 <= d@.len()
            },
            None => !width_at(d@, w as int),
        },
{
    let e = find_dec_run_end(d, w);
    if e == w || e - w > 3 {
        return None;
    }
    proof {
        lemma_dec_run_end(d@, w as int);
    }
    let v: u64 = match crate::text::read_dec(d, w, e - w) {
        Some(v) => v,
        None => {
            proof {
                assert(false);
            }
            0
        },
    };
    if v <= 255 {
        Some((v as u8, e))
    } else {
        None
    }
}

/// The maximum-link phrase matches at `i`: the capability header, the port
/// number digits, a transfer rate, and a lane count.
pub open spec fn lnk_cap_at(d: Seq<u8>, i: int) -> bool {
    let m1 = "LnkCap:\tPort #".spec_bytes();
    let m2 = ", Speed ".spec_bytes();
    let m3 = "GT/s, Width x".spec_bytes();
    let e0 = dec_run_end(d, i + m1.len());
    let q = e0 + m2.len();
    &&& matches_at(d, m1, i)
    &&& matches_at(d, m2, e0)
    &&& speed_at(d, q)
    &&& matches_at(d, m3, speed_end(d, q))
    &&& width_at(d, speed_end(d, q) + m3.len())
}

pub open spec fn first_lnk_cap_at(d: Seq<u8>, from: int) -> Option<int>
    decreases d.len() - from + 1,
{
    if from < 0 || from > d.len() {
        None
    } else if lnk_cap_at(d, from) {
        Some(from)
    } else {
        first_lnk_cap_at(d, from + 1)
    }
}

/// The maximum link the description states, from the leftmost full
/// maximum-link phrase.
pub open spec fn spec_lnk_cap(d: Seq<u8>) -> Option<LnkCap> {
    match first_lnk_cap_at(d, 0) {
        None => None,
        Some(i) => {
            let m1 = "LnkCap:\tPort #".spec_bytes();
            let m2 = ", Speed ".spec_bytes();
            let m3 = "GT/s, Width x".spec_bytes();
            let q = dec_run_end(d, i + m1.len()) + m2.len();
            Some(
                LnkCap {
                    speed_tenths: speed_tenths_at(d, q) as u32,
                    width: width_value_at(d, speed_end(d, q) + m3.len()) as u8,
                },
            )
        },
    }
}

impl PciDevice {
    /// The maximum supported link, when the description states one.
    pub fn lnk_cap(&self) -> (r: Option<LnkCap>)
        ensures
            r == spec_lnk_cap(self.desc@),
    {
        let d = self.desc.as_slice();
        let m1 = "LnkCap:\tPort #".as_bytes();
        let m2 = ", Speed ".as_bytes();
        let m3 = "GT/s, Width x".as_bytes();
        let mut from: usize = 0;
        while from < d.len()
            invariant
                d@ == self.desc@,
                m1@ == "LnkCap:\tPort #".spec_bytes(),
                m2@ == ", Speed ".spec_bytes(),
                m3@ == "GT/s, Width x".spec_bytes(),
                from <= d@.len(),
                first_lnk_cap_at(d@, 0) == first_lnk_cap_at(d@, from as int),
            decreases d@.len() - from,
        {
            let mut hit: Option<LnkCap> = None;
            if match_at(d, m1, from) {
                let e0 = find_dec_run_end(d, from + m1.len());
                if match_at(d, m2, e0) {
                    let q = e0 + m2.len();
                    match parse_speed(d, q) {
                        Some((tenths, e1)) => {
                            if match_at(d, m3, e1) {
                                match parse_width(d, e1 + m3.len()) {
                                    Some((width, _)) => {
                                        hit = Some(LnkCap::new(tenths, width));
                                    },
                                    None => {},
                                }
                            }
                        },
                        None => {},
                    }
                }
            }
            match hit {
                Some(v) => {
                    proof {
                        assert(lnk_cap_at(d@, from as int));
                        assert(first_lnk_cap_at(d@, from as int) == Some(from as int));
                    }
                    return Some(v);
                },
                None => {
                    proof {
                        assert(!lnk_cap_at(d@, from as int));
                        assert(first_lnk_cap_at(d@, from as int) == first_lnk_cap_at(
                            d@,
                            from + 1,
                        ));
                    }
                },
            }
            from += 1;
        }
        proof {
            assert(!lnk_cap_at(d@, d@.len() as int));
            assert(first_lnk_cap_at(d@, d@.len() as int + 1) is None);
            assert(first_lnk_cap_at(d@, d@.len() as int) is None);
        }
        None
    }
}

/// Position after an optional marker at `p`.
pub open spec fn after_opt(d: Seq<u8>, m: Seq<u8>, p: int) -> int {
    if matches_at(d, m, p) {
        p + m.len()
    } else {
        p
    }
}

/// The negotiated-link phrase matches at `i`: the status header, a transfer
/// rate with optional state markers, and a lane count.
pub open spec fn lnk_sta_at(d: Seq<u8>, i: int) -> bool {
    let m1 = "LnkSta:\tSpeed ".spec_bytes();
    let mg = "GT/s".spec_bytes();
    let mw = ", Width x".spec_bytes();
    let q = i + m1.len();
    let p1 = after_opt(d, " (ok)".spec_bytes(), speed_end(d, q) + mg.len());
    let p2 = after_opt(d, " (downgraded)".spec_bytes(), p1);
    &&& matches_at(d, m1, i)
    &&& speed_at(d, q)
    &&& matches_at(d, mg, speed_end(d, q))
    &&& matches_at(d, mw, p2)
    &&& width_at(d, p2 + mw.len())
}

/// Either the speed or the width of the negotiated-link phrase at `i`
/// carries the downgraded marker.
pub open spec fn lnk_sta_downgraded_at(d: Seq<u8>, i: int) -> bool {
    let m1 = "LnkSta:\tSpeed ".spec_bytes();
    let mg = "GT/s".spec_bytes();
    let mw = ", Width x".spec_bytes();
    let dg = " (downgraded)".spec_bytes();
    let q = i + m1.len();
    let p1 = after_opt(d, " (ok)".spec_bytes(), speed_end(d, q) + mg.len());
    let p2 = after_opt(d, dg, p1);
    let e2 = dec_run_end(d, p2 + mw.len());
    let p3 = after_opt(d, " (ok)".spec_bytes(), e2);
    matches_at(d, dg, p1) || matches_at(d, dg, p3)
}

pub open spec fn first_lnk_sta_at(d: Seq<u8>, from: int) -> Option<int>
    decreases d.len() - from + 1,
{
    if from < 0 || from > d.len() {
        None
    } else if lnk_sta_at(d, from) {
        Some(from)
    } else {
        first_lnk_sta_at(d, from + 1)
    }
}

/// The negotiated link the description states, from the leftmost full
/// negotiated-link phrase.
pub open spec fn spec_lnk_sta(d: Seq<u8>) -> Option<LnkSta> {
    match first_lnk_sta_at(d, 0) {
        None => None,
        Some(i) => {
            let m1 = "LnkSta:\tSpeed ".spec_bytes();
            let mg = "GT/s".spec_bytes();
            let mw = ", Width x".spec_bytes();
            let q = i + m1.len();
            let p1 = after_opt(d, " (ok)".spec_bytes(), speed_end(d, q) + mg.len());
            let p2 = after_opt(d, " (downgraded)".spec_bytes(), p1);
            Some(
                LnkSta {
                    speed_tenths: speed_tenths_at(d, q) as u32,
                    width: width_value_at(d, p2 + mw.len()) as u8,
                    downgraded: lnk_sta_downgraded_at(d, i),
                },
            )
        },
    }
}

impl PciDevice {
    /// The negotiated link, when the description states one.
    pub fn lnk_sta(&self) -> (r: Option<LnkSta>)
        ensures
            r == spec_lnk_sta(self.desc@),
    {
        let d = self.desc.as_slice();
        let m1 = "LnkSta:\tSpeed ".as_bytes();
        let mg = "GT/s".as_bytes();
        let mok = " (ok)".as_bytes();
        let mdg = " (downgraded)".as_bytes();
        let mw = ", Width x".as_bytes();
        let mut from: usize = 0;
        while from < d.len()
            invariant
                d@ == self.desc@,
                m1@ == "LnkSta:\tSpeed ".spec_bytes(),
                mg@ == "GT/s".spec_bytes(),
                mok@ == " (ok)".spec_bytes(),
                mdg@ == " (downgraded)".spec_bytes(),
                mw@ == ", Width x".spec_bytes(),
                from <= d@.len(),
                first_lnk_sta_at(d@, 0) == first_lnk_sta_at(d@, from as int),
            decreases d@.len() - from,
        {
            let mut hit: Option<LnkSta> = None;
            if match_at(d, m1, from) {
                let q = from + m1.len();
                match parse_speed(d, q) {
                    Some((tenths, e0)) => {
                        if match_at(d, mg, e0) {
                        let e1 = e0 + mg.len();
                        let p1 = if match_at(d, mok, e1) {
                            e1 + mok.len()
                        } else {
                            e1
                        };
                        let dg1 = match_at(d, mdg, p1);
                        let p2 = if dg1 {
                            p1 + mdg.len()
                        } else {
                            p1
                        };
                        if match_at(d, mw, p2) {
                            match parse_width(d, p2 + mw.len()) {
                                Some((width, e2)) => {
                                    let p3 = if match_at(d, mok, e2) {
                                        e2 + mok.len()
                                    } else {
                                        e2
                                    };
                                    let dg2 = match_at(d, mdg, p3);
                                    hit = Some(LnkSta::new(tenths, width, dg1 || dg2));
                                },
                                None => {},
                            }
                        }
                        }
                    },
                    None => {},
                }
            }
            match hit {
                Some(v) => {
                    proof {
                        assert(lnk_sta_at(d@, from as int));
                        assert(first_lnk_sta_at(d@, from as int) == Some(from as int));
                        assert(v.downgraded == lnk_sta_downgraded_at(d@, from as int));
                    }
                    return Some(v);
                },
                None => {
                    proof {
                        assert(!lnk_sta_at(d@, from as int));
                        assert(first_lnk_sta_at(d@, from as int) == first_lnk_sta_at(
                            d@,
                            from + 1,
                        ));
                    }
                },
            }
            from += 1;
        }
        proof {
            assert(!lnk_sta_at(d@, d@.len() as int));
            assert(first_lnk_sta_at(d@, d@.len() as int + 1) is None);
            assert(first_lnk_sta_at(d@, d@.len() as int) is None);
        }
        None
    }
}

/// Byte `j` of the serial-number field starting at `q` is in shape: a dash
/// after every hexadecimal digit pair.
pub open spec fn serial_byte_ok(d: Seq<u8>, q: int, j: int) -> bool {
    if j % 3 == 2 {
        d[q + j] == 45
    } else {
        is_hex_digit(d[q + j])
    }
}

/// The serial-number phrase matches at `i`: the capability tail, eight
/// dash-separated hexadecimal byte groups, and a line break.
pub open spec fn serial_at(d: Seq<u8>, i: int) -> bool {
    let m = "] Device Serial Number ".spec_bytes();
    let q = i + m.len();
    &&& matches_at(d, m, i)
    &&& q + 24 <= d.len()
    &&& forall|j: int| 0 <= j < 23 ==> #[trigger] serial_byte_ok(d, q, j)
    &&& d[q + 23] == 10
}

/// The sixteen serial-number digits at `q`, most significant first.
pub open spec fn serial_digits(d: Seq<u8>, q: int) -> Seq<u8> {
    Seq::new(16, |j: int| d[q + 3 * (j / 2) + (j % 2)])
}

pub open spec fn first_serial_at(d: Seq<u8>, from: int) -> Option<int>
    decreases d.len() - from + 1,
{
    if from < 0 || from > d.len() {
        None
    } else if serial_at(d, from) {
        Some(from)
    } else {
        first_serial_at(d, from + 1)
    }
}

/// The device serial number: the eight byte groups of the leftmost full
/// serial-number phrase, combined big-endian.
pub open spec fn spec_serial_number(d: Seq<u8>) -> Option<u64> {
    match first_serial_at(d, 0) {
        None => None,
        Some(i) => Some(
            hex_value_of(serial_digits(d, i + "] Device Serial Number ".spec_bytes().len())) as u64,
        ),
    }
}

proof fn lemma_hex_value_two_more(s: Seq<u8>, a: u8, b: u8)
    ensures
        hex_value_of(s.push(a).push(b)) == hex_value_of(s) * 256 + crate::text::hex_val(a) * 16
            + crate::text::hex_val(b),
{
    assert(s.push(a).push(b).drop_last() =~= s.push(a));
    assert(s.push(a).drop_last() =~= s);
    assert(hex_value_of(s.push(a).push(b)) == hex_value_of(s.push(a)) * 16 + crate::text::hex_val(
        b,
    ));
    assert(hex_value_of(s.push(a)) == hex_value_of(s) * 16 + crate::text::hex_val(a));
}

proof fn lemma_hex_value_pair(s: Seq<u8>)
    requires
        s.len() == 2,
    ensures
        hex_value_of(s) == crate::text::hex_val(s[0]) * 16 + crate::text::hex_val(s[1]),
{
    assert(s =~= Seq::<u8>::empty().push(s[0]).push(s[1]));
    lemma_hex_value_two_more(Seq::<u8>::empty(), s[0], s[1]);
}

impl PciDevice {
    /// The optional device serial number.
    pub fn serial_number(&self) -> (r: Option<u64>)
        ensures
            r == spec_serial_number(self.desc@),
    {
        let d = self.desc.as_slice();
        let m = "] Device Serial Number ".as_bytes();
        let mut from: usize = 0;
        while from < d.len()
            invariant
                d@ == self.desc@,
                m@ == "] Device Serial Number ".spec_bytes(),
                from <= d@.len(),
                first_serial_at(d@, 0) == first_serial_at(d@, from as int),
            decreases d@.len() - from,
        {
            if match_at(d, m, from) {
                let q = from + m.len();
                match Self::read_serial_groups(d, q) {
                    Some(v) => {
                        proof {
                            assert(serial_at(d@, from as int));
                            assert(first_serial_at(d@, from as int) == Some(from as int));
                        }
                        return Some(v);
                    },
                    None => {
                        proof {
                            assert(!serial_at(d@, from as int));
                        }
                    },
                }
            }
            proof {
                assert(!serial_at(d@, from as int));
                assert(first_serial_at(d@, from as int) == first_serial_at(d@, from + 1));
            }
            from += 1;
        }
        proof {
            assert(!serial_at(d@, d@.len() as int));
            assert(first_serial_at(d@, d@.len() as int + 1) is None);
            assert(first_serial_at(d@, d@.len() as int) is None);
        }
        None
    }

    /// Reads the eight dash-separated byte groups and the closing line break
    /// at `q`, combining the groups big-endian.
    fn read_serial_groups(d: &[u8], q: usize) -> (r: Option<u64>)
        requires
            q <= d@.len(),
        ensures
            match r {
                Some(v) => {
                    &&& q + 24 <= d@.len()
                    &&& forall|j: int| 0 <= j < 23 ==> #[trigger] serial_byte_ok(d@, q as int, j)
                    &&& d@[q + 23] == 10
                    &&& v == hex_value_of(serial_digits(d@, q as int))
                },
                None => {
                    q + 24 > d@.len() || !(forall|j: int|
                        0 <= j < 23 ==> #[trigger] serial_byte_ok(d@, q as int, j)) || d@[q + 23]
                        != 10
                },
            },
    {
        if d.len() - q < 24 {
            return None;
        }
        let mut j: usize = 0;
        while j < 23
            invariant
                q + 24 <= d@.len(),
                j <= 23,
                forall|k: int| 0 <= k < j ==> #[trigger] serial_byte_ok(d@, q as int, k),
            decreases 23 - j,
        {
            proof {
                assert(q + j < d.len());
            }
            let b = d[q + j];
            if j % 3 == 2 {
                if b != 45 {
                    proof {
                        assert(!serial_byte_ok(d@, q as int, j as int));
                    }
                    return None;
                }
            } else {
                if !((48 <= b && b <= 57) || (97 <= b && b <= 102)) {
                    proof {
                        assert(!serial_byte_ok(d@, q as int, j as int));
                    }
                    return None;
                }
            }
            proof {
                assert(serial_byte_ok(d@, q as int, j as int));
            }
            j += 1;
        }
        if d[q + 23] != 10 {
            return None;
        }
        let ghost digits = serial_digits(d@, q as int);
        proof {
            assert(digits.len() == 16);
            assert forall|j: int| 0 <= j < digits.len() implies is_hex_digit(digits[j]) by {
                let p = 3 * (j / 2) + (j % 2);
                assert(0 <= p < 23 && p % 3 != 2);
                assert(serial_byte_ok(d@, q as int, p));
                assert(digits[j] == d@[q + p]);
            }
            assert(all_hex(digits));
            lemma_hex_value_bound(digits);
            assert(digits.subrange(0, 0) =~= Seq::<u8>::empty());
        }
        let mut v: u64 = 0;
        let mut k: usize = 0;
        while k < 8
            invariant
                q + 24 <= d@.len(),
                k <= 8,
                digits == serial_digits(d@, q as int),
                all_hex(digits),
                digits.len() == 16,
                v == hex_value_of(digits.subrange(0, 2 * k as int)),
                v < pow16(2 * k as nat),
            decreases 8 - k,
        {
            let ghost pre = digits.subrange(0, 2 * k as int);
            proof {
                assert(q + 3 * k + 1 < d.len());
            }
            let a = d[q + 3 * k];
            let b = d[q + 3 * k + 1];
            proof {
                assert(digits[2 * k as int] == a);
                assert(digits[2 * k + 1] == b);
                assert(is_hex_digit(a) && is_hex_digit(b));
                assert(digits.subrange(0, 2 * k + 2) =~= pre.push(a).push(b));
                lemma_hex_value_two_more(pre, a, b);
                lemma_pow16_vals();
                crate::text::lemma_pow16_mono((2 * k) as nat, 14nat);
                lemma_pow16_14();
                assert(crate::text::hex_val(a) <= 15 && crate::text::hex_val(b) <= 15);
            }
            let ga: u64 = if a <= 57 {
                (a - 48) as u64
            } else {
                (a - 87) as u64
            };
            let gb: u64 = if b <= 57 {
                (b - 48) as u64
            } else {
                (b - 87) as u64
            };
            proof {
                assert(ga == crate::text::hex_val(a));
                assert(gb == crate::text::hex_val(b));
                assert(v * 256 <= (0x100_0000_0000_0000 - 1) * 256) by (nonlinear_arith)
                    requires
                        v < 0x100_0000_0000_0000,
                ;
            }
            v = v * 256 + ga * 16 + gb;
            proof {
                assert(pow16(2 * (k + 1) as nat) == 16 * pow16(2 * k as nat + 1));
                assert(pow16(2 * k as nat + 1) == 16 * pow16(2 * k as nat));
                assert(v < pow16(2 * (k + 1) as nat)) by (nonlinear_arith)
                    requires
                        v == hex_value_of(pre) * 256 + crate::text::hex_val(a) * 16
                            + crate::text::hex_val(b),
                        hex_value_of(pre) < pow16(2 * k as nat),
                        crate::text::hex_val(a) <= 15,
                        crate::text::hex_val(b) <= 15,
                        pow16(2 * (k + 1) as nat) == 256 * pow16(2 * k as nat),
                ;
            }
            k += 1;
        }
        proof {
            assert(digits.subrange(0, 16) =~= digits);
        }
        Some(v)
    }
}

proof fn lemma_pow16_14()
    ensures
        pow16(14) == 0x100_0000_0000_0000,
{
    assert(pow16(0) == 1);
    assert(pow16(1) == 16);
    assert(pow16(2) == 0x100);
    assert(pow16(3) == 0x1000);
    assert(pow16(4) == 0x1_0000);
    assert(pow16(5) == 0x10_0000);
    assert(pow16(6) == 0x100_0000);
    assert(pow16(7) == 0x1000_0000);
    assert(pow16(8) == 0x1_0000_0000);
    assert(pow16(9) == 0x10_0000_0000);
    assert(pow16(10) == 0x100_0000_0000);
    assert(pow16(11) == 0x1000_0000_0000);
    assert(pow16(12) == 0x1_0000_0000_0000);
    assert(pow16(13) == 0x10_0000_0000_0000);
    assert(pow16(14) == 0x100_0000_0000_0000);
}

/// The short display name for a known vendor and device pair.
pub open spec fn spec_short_name(v: u16, d: u16) -> Option<Seq<u8>> {
    if v == 0x1000 && d == 0x005d {
        Some("MegaRAID 3108".spec_bytes())
    } else if v == 0x1000 && d == 0x00b2 {
        Some("switch mgmt".spec_bytes())
    } else if v == 0x1000 && d == 0x02b2 {
        Some("placeholder".spec_bytes())
    } else if v == 0x1000 && d == 0xc010 {
        Some("placeholder".spec_bytes())
    } else if v == 0x1022 && d == 0x1485 {
        Some("AMD SPP".spec_bytes())
    } else if v == 0x1022 && d == 0x1486 {
        Some("AMD PSPCPP".spec_bytes())
    } else if v == 0x1022 && d == 0x1487 {
        Some("AMD HD Audio".spec_bytes())
    } else if v == 0x1022 && d == 0x148a {
        Some("dummy function".spec_bytes())
    } else if v == 0x1022 && d == 0x148c {
        Some("AMD XHCI".spec_bytes())
    } else if v == 0x1022 && d == 0x1498 {
        Some("AMD PTDMA".spec_bytes())
    } else if v == 0x1022 && d == 0x149c {
        Some("AMD XHCI".spec_bytes())
    } else if v == 0x1022 && d == 0x7901 {
        Some("AMD SATA".spec_bytes())
    } else if v == 0x102b && d == 0x0522 {
        Some("Matrox VGA".spec_bytes())
    } else if v == 0x102b && d == 0x0534 {
        Some("Matrox VGA".spec_bytes())
    } else if v == 0x102b && d == 0x0536 {
        Some("Matrox VGA".spec_bytes())
    } else if v == 0x10de && d == 0x0e0f {
        Some("NVIDIA GK208 HDMP/DP Audio".spec_bytes())
    } else if v == 0x10de && d == 0x128b {
        Some("NVIDIA GT 710".spec_bytes())
    } else if v == 0x10de && d == 0x1af1 {
        Some("A100 NVSwitch".spec_bytes())
    } else if v == 0x10de && d == 0x20b0 {
        Some("A100 SXM4 40GB".spec_bytes())
    } else if v == 0x10de && d == 0x22a3 {
        Some("H100 NVSwitch".spec_bytes())
    } else if v == 0x10de && d == 0x2330 {
        Some("H100 SXM5 80GB".spec_bytes())
    } else if v == 0x10de && d == 0x2335 {
        Some("H200 SXM5 141GB".spec_bytes())
    } else if v == 0x10de && d == 0x2901 {
        Some("B200 SXM6 192GB".spec_bytes())
    } else if v == 0x10ec && d == 0x8125 {
        Some("Realtek RTL8125 2.5GbE".spec_bytes())
    } else if v == 0x1344 && d == 0x51c3 {
        Some("Micron NVMe".spec_bytes())
    } else if v == 0x144d && d == 0xa808 {
        Some("Samsung NVMe".spec_bytes())
    } else if v == 0x144d && d == 0xa80a {
        Some("Samsung NVMe".spec_bytes())
    } else if v == 0x144d && d == 0xa80c {
        Some("Samsung NVMe".spec_bytes())
    } else if v == 0x144d && d == 0xa824 {
        Some("Samsung NVMe".spec_bytes())
    } else if v == 0x144d && d == 0xa825 {
        Some("Samsung NVMe".spec_bytes())
    } else if v == 0x14e4 && d == 0x165f {
        Some("Broadcom BCM5720".spec_bytes())
    } else if v == 0x15b3 && d == 0x1019 {
        Some("MT28800 ConnectX-5 Ex ETH".spec_bytes())
    } else if v == 0x15b3 && d == 0x101b {
        Some("MT28908 ConnectX-6 IB".spec_bytes())
    } else if v == 0x15b3 && d == 0x101d {
        Some("MT2892 ConnectX-6 Dx ETH".spec_bytes())
    } else if v == 0x15b3 && d == 0x101e {
        Some("ConnectX-7 IB VF".spec_bytes())
    } else if v == 0x15b3 && d == 0x1021 {
        Some("MT2910 ConnectX-7 IB".spec_bytes())
    } else if v == 0x15b3 && d == 0xa2dc {
        Some("MT43244 BlueField-3".spec_bytes())
    } else if v == 0x15b3 && d == 0xc2d5 {
        Some("MT43244 BlueField-3 mgmt".spec_bytes())
    } else if v == 0x1912 && d == 0x0014 {
        Some("Renesas USB3".spec_bytes())
    } else if v == 0x1a03 && d == 0x2000 {
        Some("ASPEED VGA".spec_bytes())
    } else if v == 0x1a03 && d == 0x2402 {
        Some("ASPEED IPMI".spec_bytes())
    } else if v == 0x1b4b && d == 0x2241 {
        Some("Marvell NVMe".spec_bytes())
    } else if v == 0x1b4b && d == 0x9485 {
        Some("Marvell SAS/SATA".spec_bytes())
    } else if v == 0x8086 && d == 0x1563 {
        Some("Intel X550".spec_bytes())
    } else if v == 0x8086 && d == 0x15f3 {
        Some("Intel I225-V".spec_bytes())
    } else if v == 0x8086 && d == 0x2723 {
        Some("Intel Wi-Fi 6 AX200".spec_bytes())
    } else {
        None
    }
}

impl PciDevice {
    /// The short display name of a known vendor and device pair.
    pub fn short_name(&self) -> (r: Option<&'static str>)
        ensures
            match r {
                Some(s) => spec_short_name(self.vendor_id, self.device_id) == Some(
                    s.spec_bytes(),
                ),
                None => spec_short_name(self.vendor_id, self.device_id) is None,
            },
    {
        match (self.vendor_id, self.device_id) {
            (0x1000, 0x005d) => Some("MegaRAID 3108"),
            (0x1000, 0x00b2) => Some("switch mgmt"),
            (0x1000, 0x02b2) => Some("placeholder"),
            (0x1000, 0xc010) => Some("placeholder"),
            (0x1022, 0x1485) => Some("AMD SPP"),
            (0x1022, 0x1486) => Some("AMD PSPCPP"),
            (0x1022, 0x1487) => Some("AMD HD Audio"),
            (0x1022, 0x148a) => Some("dummy function"),
            (0x1022, 0x148c) => Some("AMD XHCI"),
            (0x1022, 0x1498) => Some("AMD PTDMA"),
            (0x1022, 0x149c) => Some("AMD XHCI"),
            (0x1022, 0x7901) => Some("AMD SATA"),
            (0x102b, 0x0522) => Some("Matrox VGA"),
            (0x102b, 0x0534) => Some("Matrox VGA"),
            (0x102b, 0x0536) => Some("Matrox VGA"),
            (0x10de, 0x0e0f) => Some("NVIDIA GK208 HDMP/DP Audio"),
            (0x10de, 0x128b) => Some("NVIDIA GT 710"),
            (0x10de, 0x1af1) => Some("A100 NVSwitch"),
            (0x10de, 0x20b0) => Some("A100 SXM4 40GB"),
            (0x10de, 0x22a3) => Some("H100 NVSwitch"),
            (0x10de, 0x2330) => Some("H100 SXM5 80GB"),
            (0x10de, 0x2335) => Some("H200 SXM5 141GB"),
            (0x10de, 0x2901) => Some("B200 SXM6 192GB"),
            (0x10ec, 0x8125) => Some("Realtek RTL8125 2.5GbE"),
            (0x1344, 0x51c3) => Some("Micron NVMe"),
            (0x144d, 0xa808) => Some("Samsung NVMe"),
            (0x144d, 0xa80a) => Some("Samsung NVMe"),
            (0x144d, 0xa80c) => Some("Samsung NVMe"),
            (0x144d, 0xa824) => Some("Samsung NVMe"),
            (0x144d, 0xa825) => Some("Samsung NVMe"),
            (0x14e4, 0x165f) => Some("Broadcom BCM5720"),
            (0x15b3, 0x1019) => Some("MT28800 ConnectX-5 Ex ETH"),
            (0x15b3, 0x101b) => Some("MT28908 ConnectX-6 IB"),
            (0x15b3, 0x101d) => Some("MT2892 ConnectX-6 Dx ETH"),
            (0x15b3, 0x101e) => Some("ConnectX-7 IB VF"),
            (0x15b3, 0x1021) => Some("MT2910 ConnectX-7 IB"),
            (0x15b3, 0xa2dc) => Some("MT43244 BlueField-3"),
            (0x15b3, 0xc2d5) => Some("MT43244 BlueField-3 mgmt"),
            (0x1912, 0x0014) => Some("Renesas USB3"),
            (0x1a03, 0x2000) => Some("ASPEED VGA"),
            (0x1a03, 0x2402) => Some("ASPEED IPMI"),
            (0x1b4b, 0x2241) => Some("Marvell NVMe"),
            (0x1b4b, 0x9485) => Some("Marvell SAS/SATA"),
            (0x8086, 0x1563) => Some("Intel X550"),
            (0x8086, 0x15f3) => Some("Intel I225-V"),
            (0x8086, 0x2723) => Some("Intel Wi-Fi 6 AX200"),
            _ => None,
        }
    }
}

/// The visual grouping label of a root port. Devices on bus zero are taken
/// to hang off the platform controller hub, all others off a CPU socket or
/// NUMA domain; this is a heuristic keyed on the bus number alone, not an
/// authoritative topology signal.
pub open spec fn spec_group_name_of(bus: u8, desc: Seq<u8>) -> Seq<u8> {
    match spec_numa_node(desc) {
        None => if bus == 0 {
            "PCH".spec_bytes()
        } else {
            "CPU".spec_bytes()
        },
        Some(n) => if bus == 0 {
            "PCH (on NUMA node #".spec_bytes() + crate::text::dec_seq(n as nat)
                + ")".spec_bytes()
        } else {
            "NUMA node #".spec_bytes() + crate::text::dec_seq(n as nat)
        },
    }
}

impl PciDevice {
    /// The grouping label of a root port: the platform hub for bus zero,
    /// otherwise the CPU, with the NUMA node appended when one is stated.
    pub fn device_group_name(&self) -> (r: Vec<u8>)
        ensures
            r@ == spec_group_name_of(self.addr.bus, self.desc@),
    {
        let mut out: Vec<u8> = Vec::new();
        match self.numa_node() {
            None => {
                if self.addr.bus == 0 {
                    crate::text::append_lit(&mut out, "PCH");
                } else {
                    crate::text::append_lit(&mut out, "CPU");
                }
            },
            Some(n) => {
                if self.addr.bus == 0 {
                    crate::text::append_lit(&mut out, "PCH (on NUMA node #");
                    crate::text::emit_dec(&mut out, n);
                    crate::text::append_lit(&mut out, ")");
                } else {
                    crate::text::append_lit(&mut out, "NUMA node #");
                    crate::text::emit_dec(&mut out, n);
                }
            },
        }
        proof {
            assert(out@ =~= spec_group_name_of(self.addr.bus, self.desc@));
        }
        out
    }
}

/// The block opens with a full address `dddd:bb:dd.f`.
pub open spec fn long_addr_at(d: Seq<u8>) -> bool {
    &&& d.len() >= 12
    &&& all_hex(d.subrange(0, 4))
    &&& d[4] == 58
    &&& all_hex(d.subrange(5, 7))
    &&& d[7] == 58
    &&& all_hex(d.subrange(8, 10))
    &&& d[10] == 46
    &&& 48 <= d[11] <= 55
}

/// The block opens with a domainless address `bb:dd.f`.
pub open spec fn short_addr_at(d: Seq<u8>) -> bool {
    &&& d.len() >= 7
    &&& all_hex(d.subrange(0, 2))
    &&& d[2] == 58
    &&& all_hex(d.subrange(3, 5))
    &&& d[5] == 46
    &&& 48 <= d[6] <= 55
}

/// The leading address fields and the position after them. A missing domain
/// group reads as domain zero. The full form is preferred; the two shapes
/// cannot both apply, as one has a hexadecimal digit where the other has a
/// colon.
pub open spec fn spec_addr_fields(d: Seq<u8>) -> Option<(u16, u8, u8, u8, int)> {
    if long_addr_at(d) {
        Some(
            (
                hex_value_of(d.subrange(0, 4)) as u16,
                hex_value_of(d.subrange(5, 7)) as u8,
                hex_value_of(d.subrange(8, 10)) as u8,
                (d[11] - 48) as u8,
                12int,
            ),
        )
    } else if short_addr_at(d) {
        Some(
            (
                0u16,
                hex_value_of(d.subrange(0, 2)) as u8,
                hex_value_of(d.subrange(3, 5)) as u8,
                (d[6] - 48) as u8,
                7int,
            ),
        )
    } else {
        None
    }
}

/// The end of the first line: the position of the first line break, or the
/// length when there is none.
pub open spec fn spec_line_end(d: Seq<u8>, from: int) -> int
    decreases d.len() - from + 1,
{
    if from < 0 || from >= d.len() {
        d.len() as int
    } else if d[from] == 10 {
        from
    } else {
        spec_line_end(d, from + 1)
    }
}

/// An identifier pair `[vvvv:dddd]` of hexadecimal digits stands at `i`.
pub open spec fn bracket_at(d: Seq<u8>, i: int) -> bool {
    &&& 0 <= i
    &&& i + 11 <= d.len()
    &&& d[i] == 91
    &&& all_hex(d.subrange(i + 1, i + 5))
    &&& d[i + 5] == 58
    &&& all_hex(d.subrange(i + 6, i + 10))
    &&& d[i + 10] == 93
}

/// The rightmost identifier pair starting in `[lo, hi]`.
pub open spec fn last_bracket_at(d: Seq<u8>, lo: int, hi: int) -> Option<int>
    decreases hi - lo + 1,
{
    if hi < lo {
        None
    } else if bracket_at(d, hi) {
        Some(hi)
    } else {
        last_bracket_at(d, lo, hi - 1)
    }
}

/// The vendor and device identifiers: the rightmost identifier pair on the
/// first line after the address fields.
pub open spec fn spec_ids(d: Seq<u8>, addr_end: int) -> Option<(u16, u16)> {
    match last_bracket_at(d, addr_end, spec_line_end(d, 0) - 11) {
        None => None,
        Some(i) => Some(
            (
                hex_value_of(d.subrange(i + 1, i + 5)) as u16,
                hex_value_of(d.subrange(i + 6, i + 10)) as u16,
            ),
        ),
    }
}

/// A block describes a device: it opens with an address whose device number
/// fits five bits, and its first line carries an identifier pair.
pub open spec fn spec_parse_ok(d: Seq<u8>) -> bool {
    match spec_addr_fields(d) {
        None => false,
        Some(f) => f.2 <= 31 && spec_ids(d, f.4) is Some,
    }
}

impl PciDevice {
    /// Reads one description block. The record keeps the address and the
    /// identifier pair of the first line, and the whole block for the
    /// derived fields.
    pub fn parse(desc: &[u8]) -> (r: Option<PciDevice>)
        ensures
            match r {
                Some(dev) => {
                    &&& spec_parse_ok(desc@)
                    &&& ({
                        let f = spec_addr_fields(desc@).unwrap();
                        let ids = spec_ids(desc@, f.4).unwrap();
                        &&& dev.addr.domain == f.0
                        &&& dev.addr.bus == f.1
                        &&& dev.addr.devfn == f.2 * 8 + f.3
                        &&& dev.vendor_id == ids.0
                        &&& dev.device_id == ids.1
                        &&& dev.desc@ == desc@
                    })
                },
                None => !spec_parse_ok(desc@),
            },
    {
        let d = desc;
        proof {
            lemma_pow16_vals();
        }
        let domain: u16;
        let bus: u8;
        let device: u8;
        let function_byte: u8;
        let addr_end: usize;
        if d.len() >= 12 && d[4] == 58 && d[7] == 58 && d[10] == 46 && 48 <= d[11] && d[11]
            <= 55 {
            let h0 = read_hex(d, 0, 4);
            let h1 = read_hex(d, 5, 2);
            let h2 = read_hex(d, 8, 2);
            match (h0, h1, h2) {
                (Some(dom), Some(b), Some(dv)) => {
                    proof {
                        assert(long_addr_at(d@));
                        lemma_hex_value_bound(d@.subrange(0, 4));
                        lemma_hex_value_bound(d@.subrange(5, 7));
                        lemma_hex_value_bound(d@.subrange(8, 10));
                    }
                    domain = dom as u16;
                    bus = b as u8;
                    device = dv as u8;
                    function_byte = d[11];
                    addr_end = 12;
                },
                _ => {
                    proof {
                        assert(!long_addr_at(d@));
                        assert(!short_addr_at(d@)) by {
                            if short_addr_at(d@) {
                                assert(is_hex_digit(d@.subrange(3, 5)[1]));
                            }
                        }
                    }
                    return None;
                },
            }
        } else if d.len() >= 7 && d[2] == 58 && d[5] == 46 && 48 <= d[6] && d[6] <= 55 {
            let h1 = read_hex(d, 0, 2);
            let h2 = read_hex(d, 3, 2);
            match (h1, h2) {
                (Some(b), Some(dv)) => {
                    proof {
                        assert(short_addr_at(d@));
                        assert(!long_addr_at(d@));
                        lemma_hex_value_bound(d@.subrange(0, 2));
                        lemma_hex_value_bound(d@.subrange(3, 5));
                    }
                    domain = 0;
                    bus = b as u8;
                    device = dv as u8;
                    function_byte = d[6];
                    addr_end = 7;
                },
                _ => {
                    proof {
                        assert(!short_addr_at(d@));
                        assert(!long_addr_at(d@));
                    }
                    return None;
                },
            }
        } else {
            proof {
                assert(!long_addr_at(d@));
                assert(!short_addr_at(d@));
            }
            return None;
        }
        if device > 31 {
            return None;
        }
        let line_end = find_line_end(d, 0);
        if line_end < 11 || line_end - 11 < addr_end {
            proof {
                assert(last_bracket_at(d@, addr_end as int, spec_line_end(d@, 0) - 11) is None);
            }
            return None;
        }
        let mut i: usize = line_end - 11;
        let bracket: usize;
        loop
            invariant
                d@ == desc@,
                addr_end <= line_end <= d@.len(),
                line_end == spec_line_end(d@, 0),
                line_end >= 11,
                addr_end <= i,
                i <= line_end - 11,
                last_bracket_at(d@, addr_end as int, spec_line_end(d@, 0) - 11) == last_bracket_at(
                    d@,
                    addr_end as int,
                    i as int,
                ),
                spec_addr_fields(d@) == Some(
                    (domain, bus, device, (function_byte - 48) as u8, addr_end as int),
                ),
                device <= 31,
            ensures
                spec_addr_fields(d@) == Some(
                    (domain, bus, device, (function_byte - 48) as u8, addr_end as int),
                ),
                device <= 31,
                bracket_at(d@, bracket as int),
                last_bracket_at(d@, addr_end as int, spec_line_end(d@, 0) - 11) == Some(
                    bracket as int,
                ),
            decreases i,
        {
            let mut ok = false;
            if d[i] == 91 && d[i + 5] == 58 && d[i + 10] == 93 {
                match read_hex(d, i + 1, 4) {
                    Some(_) => {
                        match read_hex(d, i + 6, 4) {
                            Some(_) => {
                                ok = true;
                            },
                            None => {},
                        }
                    },
                    None => {},
                }
            }
            if ok {
                proof {
                    assert(bracket_at(d@, i as int));
                    assert(last_bracket_at(d@, addr_end as int, i as int) == Some(i as int));
                }
                bracket = i;
                break;
            }
            proof {
                assert(!bracket_at(d@, i as int));
                assert(last_bracket_at(d@, addr_end as int, i as int) == last_bracket_at(
                    d@,
                    addr_end as int,
                    i - 1,
                ));
            }
            if i == addr_end {
                proof {
                    assert(last_bracket_at(d@, addr_end as int, addr_end - 1) is None);
                    assert(last_bracket_at(d@, addr_end as int, spec_line_end(d@, 0) - 11)
                        is None);
                    assert(spec_ids(d@, addr_end as int) is None);
                    assert(!spec_parse_ok(d@));
                }
                return None;
            }
            i -= 1;
        }
        let vendor = match read_hex(d, bracket + 1, 4) {
            Some(v) => v,
            None => {
                proof {
                    assert(false);
                }
                0
            },
        };
        let devid = match read_hex(d, bracket + 6, 4) {
            Some(v) => v,
            None => {
                proof {
                    assert(false);
                }
                0
            },
        };
        proof {
            lemma_hex_value_bound(d@.subrange(bracket + 1, bracket + 5));
            lemma_hex_value_bound(d@.subrange(bracket + 6, bracket + 10));
        }
        let addr = PciAddr::new(domain, bus, device, function_byte - 48);
        Some(
            PciDevice {
                addr,
                vendor_id: vendor as u16,
                device_id: devid as u16,
                desc: vstd::slice::slice_to_vec(d),
            },
        )
    }

}

/// The position of the first line break at or after `from`, or the length
/// when none exists.
pub fn find_line_end(d: &[u8], from: usize) -> (r: usize)
    requires
        from <= d@.len(),
    ensures
        r == spec_line_end(d@, from as int),
        from <= r <= d@.len(),
{
    let mut i: usize = from;
    loop
        invariant
            from <= i <= d@.len(),
            spec_line_end(d@, from as int) == spec_line_end(d@, i as int),
        ensures
            i == spec_line_end(d@, from as int),
            from <= i <= d@.len(),
        decreases d@.len() - i,
    {
        if i >= d.len() {
            break;
        }
        if d[i] == 10 {
            break;
        }
        proof {
            assert(spec_line_end(d@, i as int) == spec_line_end(d@, i + 1));
        }
        i += 1;
    }
    i
}

} // verus!
