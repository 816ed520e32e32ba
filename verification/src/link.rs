//! Link parameters: the maximum a port supports and what it negotiated.
//!
//! Transfer rates are kept in tenths of a gigatransfer per second, so the
//! label of an 8.0 GT/s link reads `8GT/s` and a 2.5 GT/s link `2.5GT/s`.

use vstd::prelude::*;
use vstd::string::StringSliceAdditionalSpecFns;

use crate::text::{append_lit, dec_seq, emit_dec};

verus! {

/// Text of a transfer rate held in tenths: the integer part, and the tenths
/// digit only when it is not zero.
pub open spec fn speed_text(tenths: nat) -> Seq<u8> {
    if tenths % 10 == 0 {
        dec_seq(tenths / 10)
    } else {
        dec_seq(tenths / 10) + seq![46u8, (48 + tenths % 10) as u8]
    }
}

/// Appends the text of a transfer rate held in tenths.
fn emit_speed(out: &mut Vec<u8>, tenths: u32)
    ensures
        final(out)@ == old(out)@ + speed_text(tenths as nat),
{
    emit_dec(out, (tenths / 10) as u64);
    if tenths % 10 != 0 {
        out.push(46);
        out.push(48 + ((tenths % 10) as u8));
    }
    proof {
        assert(final(out)@ =~= old(out)@ + speed_text(tenths as nat));
    }
}

/// The maximum link a port electrically supports: transfer rate and width.
#[derive(Clone, Copy, Debug, PartialEq, Eq, Structural)]
pub struct LnkCap {
    pub speed_tenths: u32,
    pub width: u8,
}

impl LnkCap {
    pub fn new(speed_tenths: u32, width: u8) -> (r: LnkCap)
        ensures
            r.speed_tenths == speed_tenths,
            r.width == width,
    {
        LnkCap { speed_tenths, width }
    }

    /// The label text: `<speed>GT/s x<width>`.
    pub open spec fn spec_label(self) -> Seq<u8> {
        speed_text(self.speed_tenths as nat) + "GT/s x".spec_bytes() + dec_seq(self.width as nat)
    }

    /// Appends the label text to `out`.
    pub fn emit_label(&self, out: &mut Vec<u8>)
        ensures
            final(out)@ == old(out)@ + self.spec_label(),
    {
        emit_speed(out, self.speed_tenths);
        append_lit(out, "GT/s x");
        emit_dec(out, self.width as u64);
        proof {
            assert(final(out)@ =~= old(out)@ + self.spec_label());
        }
    }
}

/// The link a port currently negotiated, and whether the source text flagged
/// its speed or width as downgraded.
#[derive(Clone, Copy, Debug, PartialEq, Eq, Structural)]
pub struct LnkSta {
    pub speed_tenths: u32,
    pub width: u8,
    pub downgraded: bool,
}

impl LnkSta {
    pub fn new(speed_tenths: u32, width: u8, downgraded: bool) -> (r: LnkSta)
        ensures
            r.speed_tenths == speed_tenths,
            r.width == width,
            r.downgraded == downgraded,
    {
        LnkSta { speed_tenths, width, downgraded }
    }

    /// The label text: `<speed>GT/s x<width>`, and on a downgraded link the
    /// literal line-break sequence of the graph language followed by the
    /// downgraded marker.
    pub open spec fn spec_label(self) -> Seq<u8> {
        speed_text(self.speed_tenths as nat) + "GT/s x".spec_bytes() + dec_seq(self.width as nat)
            + if self.downgraded {
            "\\n(downgraded)".spec_bytes()
        } else {
            Seq::<u8>::empty()
        }
    }

    /// Appends the label text to `out`.
    pub fn emit_label(&self, out: &mut Vec<u8>)
        ensures
            final(out)@ == old(out)@ + self.spec_label(),
    {
        emit_speed(out, self.speed_tenths);
        append_lit(out, "GT/s x");
        emit_dec(out, self.width as u64);
        if self.downgraded {
            append_lit(out, "\\n(downgraded)");
        }
        proof {
            assert(final(out)@ =~= old(out)@ + self.spec_label());
        }
    }
}

} // verus!
