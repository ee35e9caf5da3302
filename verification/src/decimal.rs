//! Numbers and fixed words written as ASCII text.
use vstd::prelude::*;

verus! {

/// The decimal digits of `n`, most significant first.
pub open spec fn dec_text(n: nat) -> Seq<u8>
    decreases n,
{
    if n < 10 {
        seq![('0' as u8 + n) as u8]
    } else {
        dec_text(n / 10) + seq![('0' as u8 + n % 10) as u8]
    }
}

/// A 32-bit word read as a signed number, in decimal: a minus sign and
/// the magnitude for a word of `0x8000_0000` or more.
pub open spec fn signed_text(x: u32) -> Seq<u8> {
    if x < 0x8000_0000 {
        dec_text(x as nat)
    } else {
        seq!['-' as u8] + dec_text((0x1_0000_0000 - x) as nat)
    }
}

/// Appends the decimal digits of `n`.
pub fn push_decimal(out: &mut Vec<u8>, n: u64)
    ensures
        final(out)@ == old(out)@ + dec_text(n as nat),
    decreases n,
{
    if n >= 10 {
        push_decimal(out, n / 10);
    }
    out.push('0' as u8 + (n % 10) as u8);
    assert(final(out)@ =~= old(out)@ + dec_text(n as nat)) by {
        if n >= 10 {
            assert(dec_text(n as nat) == dec_text((n / 10) as nat) + seq![('0' as u8 + n % 10) as u8]);
        }
    }
}

/// Appends a 32-bit word read as a signed number.
pub fn push_signed(out: &mut Vec<u8>, x: u32)
    ensures
        final(out)@ == old(out)@ + signed_text(x),
{
    if x < 0x8000_0000 {
        push_decimal(out, x as u64);
    } else {
        out.push('-' as u8);
        push_decimal(out, 0x1_0000_0000u64 - x as u64);
        assert(final(out)@ =~= old(out)@ + signed_text(x));
    }
}

/// Appends the bytes of `s`.
pub fn push_bytes(out: &mut Vec<u8>, s: &[u8])
    ensures
        final(out)@ == old(out)@ + s@,
{
    let ghost start = out@;
    let mut i: usize = 0;
    while i < s.len()
        invariant
            i <= s.len(),
            out@ == start + s@.subrange(0, i as int),
        decreases s.len() - i,
    {
        out.push(s[i]);
        i = i + 1;
        assert(out@ =~= start + s@.subrange(0, i as int));
    }
    assert(s@.subrange(0, s.len() as int) =~= s@);
}

} // verus!
