//! A PCI locator: domain, bus, and the packed device/function byte.

use vstd::prelude::*;

use crate::text::{dec_seq, emit_hex, hex_seq, lemma_pow16_vals, pow16};

verus! {

/// A PCI address. `devfn` packs the device number (at most 31) and the
/// function number (at most 7) as `device * 8 + function`, which makes the
/// lexicographic order on (domain, bus, device, function) the numeric order
/// on (domain, bus, devfn).
#[derive(Clone, Copy, Debug, PartialEq, Eq, Structural)]
pub struct PciAddr {
    pub domain: u16,
    pub bus: u8,
    pub devfn: u8,
}

impl PciAddr {
    /// Packs the four locator fields into an address.
    pub fn new(domain: u16, bus: u8, device: u8, function: u8) -> (r: PciAddr)
        requires
            device <= 31,
            function <= 7,
        ensures
            r.domain == domain,
            r.bus == bus,
            r.devfn == device * 8 + function,
    {
        PciAddr { domain, bus, devfn: device * 8 + function }
    }

    pub fn domain(&self) -> (r: u16)
        ensures
            r == self.domain,
    {
        self.domain
    }

    pub fn bus(&self) -> (r: u8)
        ensures
            r == self.bus,
    {
        self.bus
    }

    /// The device number: the upper five bits of `devfn`.
    pub fn device(&self) -> (r: u8)
        ensures
            r == self.devfn / 8,
    {
        self.devfn / 8
    }

    /// The function number: the lower three bits of `devfn`.
    pub fn function(&self) -> (r: u8)
        ensures
            r == self.devfn % 8,
    {
        self.devfn % 8
    }

    /// The key that orders addresses: domain, then bus, then devfn.
    pub open spec fn spec_key(self) -> int {
        self.domain * 0x10000 + self.bus * 0x100 + self.devfn
    }

    /// Packs the whole address into one integer whose numeric order is the
    /// address order.
    pub fn key(&self) -> (r: u32)
        ensures
            r == self.spec_key(),
    {
        (self.domain as u32) * 0x10000 + (self.bus as u32) * 0x100 + (self.devfn as u32)
    }

    /// The canonical text of an address: fixed-width lowercase hexadecimal
    /// `dddd:bb:dd.f`.
    pub open spec fn spec_text(self) -> Seq<u8> {
        hex_seq(self.domain as nat, 4) + seq![58u8] + hex_seq(self.bus as nat, 2) + seq![58u8]
            + hex_seq((self.devfn / 8) as nat, 2) + seq![46u8] + hex_seq(
            (self.devfn % 8) as nat,
            1,
        )
    }

    /// Appends the canonical text of the address to `out`.
    pub fn emit(&self, out: &mut Vec<u8>)
        ensures
            final(out)@ == old(out)@ + self.spec_text(),
    {
        proof {
            lemma_pow16_vals();
        }
        emit_hex(out, self.domain as u64, 4);
        out.push(58);
        emit_hex(out, self.bus as u64, 2);
        out.push(58);
        emit_hex(out, (self.devfn / 8) as u64, 2);
        out.push(46);
        emit_hex(out, (self.devfn % 8) as u64, 1);
        proof {
            assert(final(out)@ =~= old(out)@ + self.spec_text());
        }
    }

    /// The canonical text of the address as a fresh byte string.
    pub fn format(&self) -> (r: Vec<u8>)
        ensures
            r@ == self.spec_text(),
    {
        let mut out: Vec<u8> = Vec::new();
        self.emit(&mut out);
        proof {
            assert(out@ =~= self.spec_text());
        }
        out
    }
}

/// Packing a device and function number into a devfn byte and unpacking it
/// again recovers both fields exactly.
pub proof fn lemma_devfn_roundtrip(device: u8, function: u8)
    requires
        device <= 31,
        function <= 7,
    ensures
        (device * 8 + function) / 8 == device,
        (device * 8 + function) % 8 == function,
{
    assert((device * 8 + function) / 8 == device && (device * 8 + function) % 8 == function)
        by (nonlinear_arith)
        requires
            device <= 31,
            function <= 7,
    ;
}

/// The canonical text of an address is always twelve bytes in the shape
/// `dddd:bb:dd.f`: lowercase hexadecimal digits in fixed-width groups
/// separated by `:`, `:`, and `.`.
pub proof fn lemma_addr_text_shape(a: PciAddr)
    ensures
        a.spec_text().len() == 12,
        a.spec_text()[4] == 58,
        a.spec_text()[7] == 58,
        a.spec_text()[10] == 46,
        forall|i: int|
            (0 <= i < 4 || 5 <= i < 7 || 8 <= i < 10 || i == 11) ==> crate::text::is_hex_digit(
                #[trigger] a.spec_text()[i],
            ),
{
    lemma_hex_seq_shape(a.domain as nat, 4);
    lemma_hex_seq_shape(a.bus as nat, 2);
    lemma_hex_seq_shape((a.devfn / 8) as nat, 2);
    lemma_hex_seq_shape((a.devfn % 8) as nat, 1);
}

/// A fixed-width hexadecimal rendering has exactly that width, in lowercase
/// hexadecimal digit bytes.
pub proof fn lemma_hex_seq_shape(v: nat, width: nat)
    ensures
        hex_seq(v, width).len() == width,
        forall|i: int|
            0 <= i < width ==> crate::text::is_hex_digit(#[trigger] hex_seq(v, width)[i]),
    decreases width,
{
    if width > 0 {
        lemma_hex_seq_shape(v / 16, (width - 1) as nat);
        assert(crate::text::is_hex_digit(crate::text::hex_digit_byte(v % 16)));
    }
}

} // verus!
