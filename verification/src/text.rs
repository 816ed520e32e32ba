//! Byte-level text primitives: substring search, hex/decimal reading and
//! formatting. All statements are over `Seq<u8>` views.

use vstd::prelude::*;
use vstd::string::StringSliceAdditionalSpecFns;

verus! {

/// `p` occurs in `h` starting at position `i`.
pub open spec fn matches_at(h: Seq<u8>, p: Seq<u8>, i: int) -> bool {
    &&& 0 <= i
    &&& i + p.len() <= h.len()
    &&& forall|j: int| 0 <= j < p.len() ==> h[i + j] == p[j]
}

/// Position of the leftmost occurrence of `p` in `h` at or after `from`.
pub open spec fn first_match_from(h: Seq<u8>, p: Seq<u8>, from: int) -> Option<int>
    recommends
        0 <= from,
    decreases h.len() - from + 1,
{
    if from < 0 || from + p.len() > h.len() {
        None
    } else if matches_at(h, p, from) {
        Some(from)
    } else {
        first_match_from(h, p, from + 1)
    }
}

pub open spec fn contains_seq(h: Seq<u8>, p: Seq<u8>) -> bool {
    first_match_from(h, p, 0) is Some
}

proof fn lemma_first_match_step(h: Seq<u8>, p: Seq<u8>, from: int)
    requires
        0 <= from,
        from + p.len() <= h.len(),
        !matches_at(h, p, from),
    ensures
        first_match_from(h, p, from) == first_match_from(h, p, from + 1),
{
}

/// Whether `p` occurs in `h` at position `i`.
pub fn match_at(h: &[u8], p: &[u8], i: usize) -> (r: bool)
    ensures
        r == matches_at(h@, p@, i as int),
{
    if i > h.len() || p.len() > h.len() - i {
        return false;
    }
    let mut j: usize = 0;
    while j < p.len()
        invariant
            i + p@.len() <= h@.len(),
            j <= p@.len(),
            forall|k: int| 0 <= k < j ==> h@[i + k] == p@[k],
        decreases p@.len() - j,
    {
        proof {
            assert(i + j < h.len());
        }
        let hb = h[i + j];
        if hb != p[j] {
            return false;
        }
        j += 1;
    }
    true
}

/// Leftmost occurrence of `p` in `h` at or after `from`, if any.
pub fn find_from(h: &[u8], p: &[u8], from: usize) -> (r: Option<usize>)
    ensures
        match r {
            Some(i) => first_match_from(h@, p@, from as int) == Some(i as int) && matches_at(
                h@,
                p@,
                i as int,
            ),
            None => first_match_from(h@, p@, from as int) is None,
        },
{
    if from > h.len() {
        return None;
    }
    let mut i: usize = from;
    loop
        invariant
            from <= i,
            i <= h@.len() + 1,
            first_match_from(h@, p@, from as int) == first_match_from(h@, p@, i as int),
        decreases h@.len() + 1 - i,
    {
        if i > h.len() || p.len() > h.len() - i {
            return None;
        }
        if match_at(h, p, i) {
            return Some(i);
        }
        proof {
            lemma_first_match_step(h@, p@, i as int);
        }
        i += 1;
    }
}

/// Whether `p` occurs anywhere in `h`.
pub fn contains_bytes(h: &[u8], p: &[u8]) -> (r: bool)
    ensures
        r == contains_seq(h@, p@),
{
    match find_from(h, p, 0) {
        Some(_) => true,
        None => false,
    }
}

/// Byte-wise equality of two slices.
pub fn bytes_eq(a: &[u8], b: &[u8]) -> (r: bool)
    ensures
        r == (a@ == b@),
{
    if a.len() != b.len() {
        proof {
            assert(a@ != b@);
        }
        return false;
    }
    let mut i: usize = 0;
    while i < a.len()
        invariant
            a@.len() == b@.len(),
            i <= a@.len(),
            forall|k: int| 0 <= k < i ==> a@[k] == b@[k],
        decreases a@.len() - i,
    {
        if a[i] != b[i] {
            return false;
        }
        i += 1;
    }
    proof {
        assert(a@ =~= b@);
    }
    true
}

/// Appends all of `s` to `out`.
pub fn append_bytes(out: &mut Vec<u8>, s: &[u8])
    ensures
        final(out)@ == old(out)@ + s@,
{
    let mut i: usize = 0;
    proof {
        assert(out@ =~= old(out)@ + s@.subrange(0, 0));
    }
    while i < s.len()
        invariant
            i <= s@.len(),
            out@ == old(out)@ + s@.subrange(0, i as int),
        decreases s@.len() - i,
    {
        out.push(s[i]);
        proof {
            assert(old(out)@ + s@.subrange(0, i as int) + seq![s@[i as int]] =~= old(out)@
                + s@.subrange(0, i + 1));
        }
        i += 1;
    }
    proof {
        assert(s@.subrange(0, s@.len() as int) =~= s@);
    }
}

/// Lowercase hexadecimal digit, as the source dumps use: `0`-`9` or `a`-`f`.
pub open spec fn is_hex_digit(b: u8) -> bool {
    (48 <= b <= 57) || (97 <= b <= 102)
}

/// Numeric value of a lowercase hexadecimal digit byte.
pub open spec fn hex_val(b: u8) -> nat
    recommends
        is_hex_digit(b),
{
    if 48 <= b <= 57 {
        (b - 48) as nat
    } else {
        (b - 87) as nat
    }
}

pub open spec fn is_dec_digit(b: u8) -> bool {
    48 <= b <= 57
}

pub open spec fn all_hex(s: Seq<u8>) -> bool {
    forall|i: int| 0 <= i < s.len() ==> is_hex_digit(s[i])
}

pub open spec fn all_dec(s: Seq<u8>) -> bool {
    forall|i: int| 0 <= i < s.len() ==> is_dec_digit(s[i])
}

/// Value of a big-endian string of hexadecimal digit bytes.
pub open spec fn hex_value_of(s: Seq<u8>) -> nat
    decreases s.len(),
{
    if s.len() == 0 {
        0
    } else {
        hex_value_of(s.drop_last()) * 16 + hex_val(s.last())
    }
}

/// Value of a big-endian string of decimal digit bytes.
pub open spec fn dec_value_of(s: Seq<u8>) -> nat
    decreases s.len(),
{
    if s.len() == 0 {
        0
    } else {
        dec_value_of(s.drop_last()) * 10 + ((s.last() - 48) as nat)
    }
}

pub open spec fn pow16(w: nat) -> nat
    decreases w,
{
    if w == 0 {
        1nat
    } else {
        16 * pow16((w - 1) as nat)
    }
}

pub proof fn lemma_hex_value_bound(s: Seq<u8>)
    requires
        all_hex(s),
    ensures
        hex_value_of(s) < pow16(s.len()),
    decreases s.len(),
{
    if s.len() > 0 {
        assert(all_hex(s.drop_last())) by {
            assert(forall|i: int| 0 <= i < s.len() - 1 ==> s.drop_last()[i] == s[i]);
        }
        lemma_hex_value_bound(s.drop_last());
        assert(is_hex_digit(s.last()));
        assert(hex_val(s.last()) <= 15);
    }
}

/// Reads `n` hexadecimal digits of `h` starting at `i` as a big-endian value;
/// `None` when out of bounds or a byte is not a lowercase hexadecimal digit.
pub fn read_hex(h: &[u8], i: usize, n: usize) -> (r: Option<u64>)
    requires
        n <= 16,
    ensures
        ({
            let digits = h@.subrange(i as int, i + n);
            match r {
                Some(v) => i + n <= h@.len() && all_hex(digits) && v == hex_value_of(digits),
                None => i + n > h@.len() || !all_hex(digits),
            }
        }),
{
    if i > h.len() || n > h.len() - i {
        return None;
    }
    let ghost digits = h@.subrange(i as int, i + n);
    let mut v: u64 = 0;
    let mut j: usize = 0;
    proof {
        assert(digits.subrange(0, 0) =~= Seq::<u8>::empty());
        lemma_hex_value_bound(digits.subrange(0, 0));
    }
    while j < n
        invariant
            i + n <= h@.len(),
            n <= 16,
            j <= n,
            digits == h@.subrange(i as int, i + n),
            all_hex(digits.subrange(0, j as int)),
            v == hex_value_of(digits.subrange(0, j as int)),
            v < pow16(j as nat),
        decreases n - j,
    {
        proof {
            assert(i + j < h.len());
        }
        let b = h[i + j];
        let d: u64;
        if 48 <= b && b <= 57 {
            d = (b - 48) as u64;
        } else if 97 <= b && b <= 102 {
            d = (b - 87) as u64;
        } else {
            proof {
                assert(digits[j as int] == b);
                assert(!is_hex_digit(b));
            }
            return None;
        }
        proof {
            assert(digits[j as int] == b);
            lemma_pow16_u64();
            lemma_pow16_mono(j as nat, 15);
            assert(v < 0x1000_0000_0000_0000);
            assert(v * 16 + d < 0x1_0000_0000_0000_0000);
            assert(digits.subrange(0, j + 1).drop_last() =~= digits.subrange(0, j as int));
            assert(digits.subrange(0, j + 1).last() == b);
        }
        v = v * 16 + d;
        j += 1;
    }
    proof {
        assert(digits.subrange(0, n as int) =~= digits);
    }
    Some(v)
}

/// The powers of 16 that the fixed-width renderings of this crate use.
pub proof fn lemma_pow16_vals()
    ensures
        pow16(1) == 0x10,
        pow16(2) == 0x100,
        pow16(4) == 0x1_0000,
        pow16(16) == 0x1_0000_0000_0000_0000,
{
    lemma_pow16_u64();
    assert(pow16(0) == 1);
    assert(pow16(1) == 16);
    assert(pow16(2) == 0x100);
    assert(pow16(3) == 0x1000);
    assert(pow16(4) == 0x1_0000);
}

proof fn lemma_pow16_u64()
    ensures
        pow16(16) == 0x1_0000_0000_0000_0000,
        pow16(15) == 0x1000_0000_0000_0000,
{
    assert(pow16(0) == 1);
    assert(pow16(1) == 16);
    assert(pow16(2) == 0x100);
    assert(pow16(3) == 0x1000);
    assert(pow16(4) == 0x1_0000);
    assert(pow16(5) == 0x10_0000);
    assert(pow16(6) == 0x100_0000);
    assert(pow16(7) == 0x1000_0000);
    assert(pow16(8) == 0x1_0000_0000);
    assert(pow16(9) == 0x10_0000_0000);
    assert(pow16(10) == 0x100_0000_0000);
    assert(pow16(11) == 0x1000_0000_0000);
    assert(pow16(12) == 0x1_0000_0000_0000);
    assert(pow16(13) == 0x10_0000_0000_0000);
    assert(pow16(14) == 0x100_0000_0000_0000);
    assert(pow16(15) == 0x1000_0000_0000_0000);
    assert(pow16(16) == 0x1_0000_0000_0000_0000);
}

pub proof fn lemma_pow16_mono(a: nat, b: nat)
    requires
        a <= b,
    ensures
        pow16(a) <= pow16(b),
    decreases b,
{
    if a < b {
        lemma_pow16_mono(a, (b - 1) as nat);
    }
}

pub open spec fn pow10(w: nat) -> nat
    decreases w,
{
    if w == 0 {
        1nat
    } else {
        10 * pow10((w - 1) as nat)
    }
}

pub proof fn lemma_dec_value_bound(s: Seq<u8>)
    requires
        all_dec(s),
    ensures
        dec_value_of(s) < pow10(s.len()),
    decreases s.len(),
{
    if s.len() > 0 {
        assert(all_dec(s.drop_last())) by {
            assert(forall|i: int| 0 <= i < s.len() - 1 ==> s.drop_last()[i] == s[i]);
        }
        lemma_dec_value_bound(s.drop_last());
        assert(is_dec_digit(s.last()));
    }
}

pub proof fn lemma_pow10_mono(a: nat, b: nat)
    requires
        a <= b,
    ensures
        pow10(a) <= pow10(b),
    decreases b,
{
    if a < b {
        lemma_pow10_mono(a, (b - 1) as nat);
    }
}

/// The powers of 10 that bound the decimal runs this crate reads.
pub proof fn lemma_pow10_vals()
    ensures
        pow10(3) == 1000,
        pow10(8) == 0x5F5_E100,
{
    assert(pow10(0) == 1);
    assert(pow10(1) == 10);
    assert(pow10(2) == 100);
    assert(pow10(3) == 1000);
    assert(pow10(4) == 10000);
    assert(pow10(5) == 100000);
    assert(pow10(6) == 1000000);
    assert(pow10(7) == 10000000);
    assert(pow10(8) == 100000000);
}

/// Reads `n` decimal digits of `h` starting at `i` as a value; `None` when
/// out of bounds or a byte is not a decimal digit.
pub fn read_dec(h: &[u8], i: usize, n: usize) -> (r: Option<u64>)
    requires
        n <= 8,
    ensures
        ({
            let digits = h@.subrange(i as int, i + n);
            match r {
                Some(v) => i + n <= h@.len() && all_dec(digits) && v == dec_value_of(digits),
                None => i + n > h@.len() || !all_dec(digits),
            }
        }),
{
    if i > h.len() || n > h.len() - i {
        return None;
    }
    let ghost digits = h@.subrange(i as int, i + n);
    let mut v: u64 = 0;
    let mut j: usize = 0;
    proof {
        assert(digits.subrange(0, 0) =~= Seq::<u8>::empty());
        lemma_dec_value_bound(digits.subrange(0, 0));
    }
    while j < n
        invariant
            i + n <= h@.len(),
            n <= 8,
            j <= n,
            digits == h@.subrange(i as int, i + n),
            all_dec(digits.subrange(0, j as int)),
            v == dec_value_of(digits.subrange(0, j as int)),
            v < pow10(j as nat),
        decreases n - j,
    {
        proof {
            assert(i + j < h.len());
        }
        let b = h[i + j];
        if !(48 <= b && b <= 57) {
            proof {
                assert(digits[j as int] == b);
                assert(!is_dec_digit(b));
            }
            return None;
        }
        let d: u64 = (b - 48) as u64;
        proof {
            assert(digits[j as int] == b);
            lemma_pow10_vals();
            lemma_pow10_mono(j as nat, 8);
            assert(v < 0x5F5_E100);
            assert(digits.subrange(0, j + 1).drop_last() =~= digits.subrange(0, j as int));
            assert(digits.subrange(0, j + 1).last() == b);
        }
        v = v * 10 + d;
        j += 1;
    }
    proof {
        assert(digits.subrange(0, n as int) =~= digits);
    }
    Some(v)
}

/// First position at or after `i` whose byte is not a decimal digit.
pub open spec fn dec_run_end(h: Seq<u8>, i: int) -> int
    decreases h.len() - i + 1,
{
    if i < 0 || i >= h.len() || !is_dec_digit(h[i]) {
        i
    } else {
        dec_run_end(h, i + 1)
    }
}

pub proof fn lemma_dec_run_end(h: Seq<u8>, i: int)
    requires
        0 <= i <= h.len(),
    ensures
        i <= dec_run_end(h, i) <= h.len(),
        all_dec(h.subrange(i, dec_run_end(h, i))),
        dec_run_end(h, i) < h.len() ==> !is_dec_digit(h[dec_run_end(h, i)]),
    decreases h.len() - i,
{
    if i < h.len() && is_dec_digit(h[i]) {
        lemma_dec_run_end(h, i + 1);
        assert forall|k: int| i <= k < dec_run_end(h, i) implies is_dec_digit(h[k]) by {
            if k > i {
                assert(h.subrange(i + 1, dec_run_end(h, i + 1))[k - i - 1] == h[k]);
            }
        }
        assert(all_dec(h.subrange(i, dec_run_end(h, i))));
    }
}

/// Scans past a run of decimal digits: the first non-digit position after `i`.
pub fn find_dec_run_end(h: &[u8], i: usize) -> (r: usize)
    requires
        i <= h@.len(),
    ensures
        r == dec_run_end(h@, i as int),
        i <= r <= h@.len(),
{
    let mut j: usize = i;
    loop
        invariant
            i <= j <= h@.len(),
            dec_run_end(h@, i as int) == dec_run_end(h@, j as int),
        ensures
            i <= j <= h@.len(),
            j == dec_run_end(h@, i as int),
        decreases h@.len() - j,
    {
        if j >= h.len() {
            proof {
                assert(dec_run_end(h@, j as int) == j as int);
            }
            break;
        }
        let b = h[j];
        if !(48 <= b && b <= 57) {
            proof {
                assert(!is_dec_digit(h@[j as int]));
                assert(dec_run_end(h@, j as int) == j as int);
            }
            break;
        }
        proof {
            assert(dec_run_end(h@, j as int) == dec_run_end(h@, j + 1));
        }
        j += 1;
    }
    j
}

/// Byte of a single lowercase hexadecimal digit.
pub open spec fn hex_digit_byte(d: nat) -> u8
    recommends
        d < 16,
{
    if d < 10 {
        (48 + d) as u8
    } else {
        (87 + d) as u8
    }
}

/// Fixed-width lowercase hexadecimal rendering of `v`, most significant digit
/// first.
pub open spec fn hex_seq(v: nat, width: nat) -> Seq<u8>
    decreases width,
{
    if width == 0 {
        Seq::<u8>::empty()
    } else {
        hex_seq(v / 16, (width - 1) as nat).push(hex_digit_byte(v % 16))
    }
}

/// Decimal rendering of `v` without leading zeroes (`0` stands alone).
pub open spec fn dec_seq(v: nat) -> Seq<u8>
    decreases v,
{
    if v < 10 {
        seq![(48 + v) as u8]
    } else {
        dec_seq(v / 10).push((48 + v % 10) as u8)
    }
}

/// Appends `v` in fixed-width lowercase hexadecimal.
pub fn emit_hex(out: &mut Vec<u8>, v: u64, width: usize)
    requires
        width <= 16,
        (v as nat) < pow16(width as nat),
    ensures
        final(out)@ == old(out)@ + hex_seq(v as nat, width as nat),
    decreases width,
{
    if width == 0 {
        proof {
            assert(out@ =~= out@ + hex_seq(v as nat, 0));
        }
        return;
    }
    proof {
        assert(pow16(width as nat) == 16 * pow16((width - 1) as nat));
        assert((v / 16) as nat == (v as nat) / 16);
        assert((v as nat) / 16 < pow16((width - 1) as nat)) by (nonlinear_arith)
            requires
                (v as nat) < 16 * pow16((width - 1) as nat),
        ;
    }
    emit_hex(out, v / 16, width - 1);
    let d: u8 = (v % 16) as u8;
    let b: u8 = if d < 10 {
        48 + d
    } else {
        87 + d
    };
    proof {
        assert(b == hex_digit_byte((v as nat) % 16));
    }
    out.push(b);
    proof {
        assert(old(out)@ + hex_seq((v / 16) as nat, (width - 1) as nat) + seq![b] =~= old(out)@
            + hex_seq(v as nat, width as nat));
    }
}

/// Appends `v` in decimal.
pub fn emit_dec(out: &mut Vec<u8>, v: u64)
    ensures
        final(out)@ == old(out)@ + dec_seq(v as nat),
    decreases v,
{
    if v < 10 {
        out.push(48 + (v as u8));
        proof {
            assert(old(out)@.push((48 + v) as u8) =~= old(out)@ + dec_seq(v as nat));
        }
        return;
    }
    proof {
        assert((v / 10) as nat == (v as nat) / 10);
        assert((v % 10) as nat == (v as nat) % 10);
    }
    emit_dec(out, v / 10);
    out.push(48 + ((v % 10) as u8));
    proof {
        assert(old(out)@ + dec_seq((v / 10) as nat) + seq![(48 + (v as nat) % 10) as u8]
            =~= old(out)@ + dec_seq(v as nat));
    }
}

/// Extending a buffer that holds `base` as prefix keeps the prefix and
/// appends to the part after it.
pub proof fn lemma_suffix_extend(base: Seq<u8>, mid: Seq<u8>, piece: Seq<u8>)
    requires
        base.len() <= mid.len(),
        mid.subrange(0, base.len() as int) == base,
    ensures
        (mid + piece).subrange(0, base.len() as int) == base,
        (mid + piece).len() >= base.len(),
        (mid + piece).subrange(base.len() as int, (mid + piece).len() as int) == mid.subrange(
            base.len() as int,
            mid.len() as int,
        ) + piece,
{
    assert((mid + piece).subrange(0, base.len() as int) =~= base);
    assert((mid + piece).subrange(base.len() as int, (mid + piece).len() as int) =~= mid.subrange(
        base.len() as int,
        mid.len() as int,
    ) + piece);
}

/// A fresh vector holding the bytes of `s`.
pub fn to_vec_copy(s: &[u8]) -> (r: Vec<u8>)
    ensures
        r@ == s@,
{
    let mut out: Vec<u8> = Vec::new();
    append_bytes(&mut out, s);
    proof {
        assert(out@ =~= s@);
    }
    out
}

/// Appends the bytes of a string literal to `out`.
pub fn append_lit(out: &mut Vec<u8>, s: &str)
    ensures
        final(out)@ == old(out)@ + s.spec_bytes(),
{
    append_bytes(out, s.as_bytes());
}

} // verus!
